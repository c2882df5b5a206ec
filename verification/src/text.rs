//! Text helpers over `String`, specified on character sequences.
use vstd::prelude::*;

verus! {

/// The character sequences of a sequence of strings.
pub open spec fn views(s: Seq<String>) -> Seq<Seq<char>> {
    s.map_values(|x: String| x@)
}

/// `segs` joined with `sep` between consecutive segments.
pub open spec fn join_with(segs: Seq<Seq<char>>, sep: Seq<char>) -> Seq<char>
    decreases segs.len(),
{
    if segs.len() == 0 {
        Seq::empty()
    } else if segs.len() == 1 {
        segs[0]
    } else {
        join_with(segs.subrange(0, segs.len() - 1), sep) + sep + segs[segs.len() - 1]
    }
}

/// The strings of `segs` joined with `sep`.
pub fn join_strings(segs: &Vec<String>, sep: &str) -> (r: String)
    ensures
        r@ == join_with(views(segs@), sep@),
{
    let mut r = String::new();
    let n = segs.len();
    let ghost all = views(segs@);
    let mut i: usize = 0;
    while i < n
        invariant
            n == segs.len(),
            all == views(segs@),
            0 <= i <= n,
            r@ == join_with(all.subrange(0, i as int), sep@),
        decreases n - i,
    {
        let ghost before = all.subrange(0, i as int);
        let ghost after = all.subrange(0, i + 1);
        assert(after.subrange(0, i as int) =~= before);
        assert(after[i as int] == segs@[i as int]@);
        if i > 0 {
            r.append(sep);
        }
        r.append(segs[i].as_str());
        i = i + 1;
    }
    assert(all.subrange(0, n as int) =~= all);
    r
}

/// Whether two strings hold the same characters.
pub fn same_text(a: &str, b: &str) -> (r: bool)
    ensures
        r == (a@ == b@),
{
    let n = a.unicode_len();
    if n != b.unicode_len() {
        return false;
    }
    let mut i: usize = 0;
    while i < n
        invariant
            n == a@.len(),
            n == b@.len(),
            0 <= i <= n,
            forall|j: int| 0 <= j < i ==> a@[j] == b@[j],
        decreases n - i,
    {
        if a.get_char(i) != b.get_char(i) {
            return false;
        }
        i = i + 1;
    }
    assert(a@ =~= b@);
    true
}


/// The character of a decimal digit.
pub open spec fn digit_char(d: nat) -> char {
    (d + 48) as char
}

/// The decimal numeral of `n`, without sign or leading zeros.
pub open spec fn decimal(n: nat) -> Seq<char>
    decreases n,
{
    if n < 10 {
        seq![digit_char(n)]
    } else {
        decimal(n / 10).push(digit_char(n % 10))
    }
}

/// The decimal numeral of `n`, as `usize`'s `Display` writes it.
pub fn index_text(n: usize) -> (r: String)
    ensures
        r@ == decimal(n as nat),
    decreases n,
{
    let digits = "0123456789";
    let d = n % 10;
    proof {
        reveal_strlit("0123456789");
        assert(digits@.len() == 10);
    }
    let digit = digits.substring_char(d, d + 1);
    proof {
        assert(digit@ =~= seq![digits@[d as int]]);
        assert(digits@[d as int] == digit_char(d as nat)) by {
            assert(digits@ =~= seq!['0', '1', '2', '3', '4', '5', '6', '7', '8', '9']);
        }
    }
    if n < 10 {
        String::from_str(digit)
    } else {
        let mut s = index_text(n / 10);
        s.append(digit);
        s
    }
}


/// `p` is a prefix of `s`.
pub open spec fn has_prefix(s: Seq<char>, p: Seq<char>) -> bool {
    p.len() <= s.len() && s.subrange(0, p.len() as int) == p
}

/// `s` with its prefix `prefix` removed, or `None` when `s` does not start
/// with `prefix`.
pub fn strip_prefix(s: &str, prefix: &str) -> (r: Option<String>)
    ensures
        match r {
            Some(rest) => has_prefix(s@, prefix@) && rest@ == s@.subrange(prefix@.len() as int, s@.len() as int),
            None => !has_prefix(s@, prefix@),
        },
{
    let n = s.unicode_len();
    let m = prefix.unicode_len();
    if m > n {
        return None;
    }
    let mut i: usize = 0;
    while i < m
        invariant
            n == s@.len(),
            m == prefix@.len(),
            m <= n,
            0 <= i <= m,
            forall|j: int| 0 <= j < i ==> s@[j] == prefix@[j],
        decreases m - i,
    {
        if s.get_char(i) != prefix.get_char(i) {
            proof {
                assert(s@.subrange(0, m as int)[i as int] != prefix@[i as int]);
            }
            return None;
        }
        i = i + 1;
    }
    proof {
        assert(s@.subrange(0, m as int) =~= prefix@);
    }
    Some(String::from_str(s.substring_char(m, n)))
}

/// What `str::to_lowercase` gives for `s` (Unicode lowercase mapping).
pub uninterp spec fn lowercase(s: Seq<char>) -> Seq<char>;

/// `s` in Unicode lowercase, by `str::to_lowercase`.
#[verifier::external_body]
pub fn to_lowercase(s: &str) -> (r: String)
    ensures
        r@ == lowercase(s@),
{
    s.to_lowercase()
}

} // verus!
