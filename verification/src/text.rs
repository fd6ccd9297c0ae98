//! Character-level string operations used by the layout and Home Assistant
//! logic, each proved against a short statement over `Seq<char>`.
use vstd::prelude::*;

verus! {

/// `s` ends with `suffix`.
pub open spec fn ends_with(s: Seq<char>, suffix: Seq<char>) -> bool {
    &&& suffix.len() <= s.len()
    &&& s.subrange(s.len() - suffix.len(), s.len() as int) == suffix
}

/// `s` with every repetition of a nonempty `suffix` removed from its end.
pub open spec fn trim_end_all(s: Seq<char>, suffix: Seq<char>) -> Seq<char>
    decreases s.len(),
{
    if suffix.len() > 0 && ends_with(s, suffix) {
        trim_end_all(s.subrange(0, s.len() - suffix.len()), suffix)
    } else {
        s
    }
}

/// `pat` occurs in `s` starting at position `i`.
pub open spec fn occurs_at(s: Seq<char>, pat: Seq<char>, i: int) -> bool {
    &&& 0 <= i
    &&& i + pat.len() <= s.len()
    &&& s.subrange(i, i + pat.len()) == pat
}

/// `pat` occurs somewhere in `s`.
pub open spec fn contains(s: Seq<char>, pat: Seq<char>) -> bool {
    exists|i: int| occurs_at(s, pat, i)
}

/// `i` is the first position at which `pat` occurs in `s`.
pub open spec fn first_occurrence(s: Seq<char>, pat: Seq<char>, i: int) -> bool {
    &&& occurs_at(s, pat, i)
    &&& forall|j: int| 0 <= j < i ==> !occurs_at(s, pat, j)
}

/// `s` with every space replaced by an underscore.
pub open spec fn spaces_to_underscores(s: Seq<char>) -> Seq<char> {
    s.map_values(|c: char| if c == ' ' { '_' } else { c })
}

/// Whether two strings hold the same characters.
pub fn str_eq(a: &str, b: &str) -> (res: bool)
    ensures
        res == (a@ == b@),
{
    let n = a.unicode_len();
    let m = b.unicode_len();
    if n != m {
        return false;
    }
    let mut i: usize = 0;
    while i < n
        invariant
            n == a@.len(),
            m == b@.len(),
            n == m,
            i <= n,
            forall|j: int| 0 <= j < i ==> a@[j] == b@[j],
        decreases n - i,
    {
        if a.get_char(i) != b.get_char(i) {
            return false;
        }
        i += 1;
    }
    assert(a@ =~= b@);
    true
}

/// Whether `pat` occurs in `s` at character position `at`.
pub fn occurs_at_exec(s: &str, pat: &[char], at: usize) -> (res: bool)
    ensures
        res == occurs_at(s@, pat@, at as int),
{
    let n = s.unicode_len();
    let m = pat.len();
    if at > n || m > n - at {
        return false;
    }
    let mut j: usize = 0;
    while j < m
        invariant
            n == s@.len(),
            m == pat@.len(),
            at + m <= n,
            j <= m,
            forall|k: int| 0 <= k < j ==> s@[at + k] == pat@[k],
        decreases m - j,
    {
        if s.get_char(at + j) != pat[j] {
            assert(s@.subrange(at as int, at + m)[j as int] != pat@[j as int]);
            return false;
        }
        j += 1;
    }
    assert(s@.subrange(at as int, at + m) =~= pat@);
    true
}

/// Whether `s` ends with the characters of `suffix`.
pub fn ends_with_chars(s: &str, suffix: &[char]) -> (res: bool)
    ensures
        res == ends_with(s@, suffix@),
{
    let n = s.unicode_len();
    let m = suffix.len();
    if m > n {
        return false;
    }
    occurs_at_exec(s, suffix, n - m)
}

/// `s` with every repetition of a nonempty `suffix` removed from its end.
pub fn trim_end_chars<'a>(s: &'a str, suffix: &[char]) -> (res: &'a str)
    requires
        suffix@.len() > 0,
    ensures
        res@ == trim_end_all(s@, suffix@),
{
    let mut cur: &'a str = s;
    while ends_with_chars(cur, suffix)
        invariant
            suffix@.len() > 0,
            trim_end_all(cur@, suffix@) == trim_end_all(s@, suffix@),
        decreases cur@.len(),
    {
        let n = cur.unicode_len();
        cur = cur.substring_char(0, n - suffix.len());
    }
    cur
}

/// The first character position at which `pat` occurs in `s`, if any.
pub fn find_chars(s: &str, pat: &[char]) -> (res: Option<usize>)
    ensures
        match res {
            Some(i) => first_occurrence(s@, pat@, i as int),
            None => !contains(s@, pat@),
        },
{
    let n = s.unicode_len();
    let mut i: usize = 0;
    while i < n
        invariant
            n == s@.len(),
            i <= n,
            forall|j: int| 0 <= j < i ==> !occurs_at(s@, pat@, j),
        decreases n - i,
    {
        if occurs_at_exec(s, pat, i) {
            return Some(i);
        }
        i += 1;
    }
    if occurs_at_exec(s, pat, n) {
        return Some(n);
    }
    assert forall|j: int| !occurs_at(s@, pat@, j) by {
        if 0 <= j && j + pat@.len() <= s@.len() {
            assert(j <= n);
        }
    }
    None
}

/// Whether `pat` occurs anywhere in `s`.
pub fn contains_chars(s: &str, pat: &[char]) -> (res: bool)
    ensures
        res == contains(s@, pat@),
{
    match find_chars(s, pat) {
        Some(_) => true,
        None => false,
    }
}

/// The decimal digit character for `d` below 10.
pub open spec fn digit_char(d: nat) -> char {
    (d + 48) as char
}

/// The decimal representation of `n`, without leading zeros.
pub open spec fn decimal(n: nat) -> Seq<char>
    decreases n,
{
    if n < 10 {
        seq![digit_char(n)]
    } else {
        decimal(n / 10).push(digit_char(n % 10))
    }
}

/// Appends the decimal representation of `n` to `out`.
pub fn push_decimal(out: &mut String, n: u64)
    ensures
        final(out)@ == old(out)@ + decimal(n as nat),
    decreases n,
{
    if n >= 10 {
        push_decimal(out, n / 10);
    }
    let d = (n % 10) as usize;
    let digits = "0123456789";
    proof {
        reveal_strlit("0123456789");
    }
    let piece = digits.substring_char(d, d + 1);
    proof {
        assert(piece@ =~= seq![digit_char(d as nat)]);
    }
    out.append(piece);
    proof {
        assert(out@ =~= old(out)@ + decimal(n as nat));
    }
}

} // verus!
