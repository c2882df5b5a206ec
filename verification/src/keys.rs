//! Key lists in lexicographic order, without repeats.
use vstd::prelude::*;
use crate::text::{views, same_text};

verus! {

/// `a` sorts strictly before `b`: characters compared one by one, and
/// a proper prefix first. For valid UTF-8 this is the byte order that
/// `String`'s `Ord` uses.
pub open spec fn lex_lt(a: Seq<char>, b: Seq<char>) -> bool
    decreases a.len(),
{
    if b.len() == 0 {
        false
    } else if a.len() == 0 {
        true
    } else if a[0] != b[0] {
        a[0] < b[0]
    } else {
        lex_lt(a.subrange(1, a.len() as int), b.subrange(1, b.len() as int))
    }
}

/// `lex_lt` is the lexicographic order of characters: `a` sorts before
/// `b` exactly when, after a common prefix, either `a` ends while `b`
/// goes on, or `a`'s next character is below `b`'s.
pub proof fn lex_lt_is_lexicographic(a: Seq<char>, b: Seq<char>)
    ensures
        lex_lt(a, b) <==> exists|i: int|
            0 <= i <= a.len() && i < b.len() && #[trigger] a.subrange(0, i) == b.subrange(0, i) && (i
                == a.len() || a[i] < b[i]),
    decreases a.len(),
{
    if b.len() == 0 {
    } else if a.len() == 0 {
        assert(a.subrange(0, 0) =~= b.subrange(0, 0));
    } else if a[0] != b[0] {
        if a[0] < b[0] {
            assert(a.subrange(0, 0) =~= b.subrange(0, 0));
        }
        assert forall|i: int|
            0 <= i <= a.len() && i < b.len() && #[trigger] a.subrange(0, i) == b.subrange(0, i) && (i == a.len()
                || a[i] < b[i]) implies a[0] < b[0] by {
            if i > 0 {
                assert(a.subrange(0, i)[0] == b.subrange(0, i)[0]);
            }
        }
    } else {
        let a1 = a.subrange(1, a.len() as int);
        let b1 = b.subrange(1, b.len() as int);
        lex_lt_is_lexicographic(a1, b1);
        if lex_lt(a1, b1) {
            let j = choose|j: int|
                0 <= j <= a1.len() && j < b1.len() && #[trigger] a1.subrange(0, j) == b1.subrange(0, j) && (j
                    == a1.len() || a1[j] < b1[j]);
            assert(a.subrange(0, j + 1) =~= seq![a[0]] + a1.subrange(0, j));
            assert(b.subrange(0, j + 1) =~= seq![b[0]] + b1.subrange(0, j));
            assert(a.subrange(0, j + 1) == b.subrange(0, j + 1));
        }
        assert forall|i: int|
            0 <= i <= a.len() && i < b.len() && #[trigger] a.subrange(0, i) == b.subrange(0, i) && (i == a.len()
                || a[i] < b[i]) implies lex_lt(a1, b1) by {
            assert(i > 0);
            assert(a1.subrange(0, i - 1) =~= a.subrange(0, i).subrange(1, i));
            assert(b1.subrange(0, i - 1) =~= b.subrange(0, i).subrange(1, i));
            assert(a1.subrange(0, i - 1) == b1.subrange(0, i - 1));
            if i < a.len() {
                assert(a1[i - 1] == a[i]);
                assert(b1[i - 1] == b[i]);
            }
        }
    }
}

/// Each element sorts strictly before every later one.
pub open spec fn strictly_sorted(s: Seq<Seq<char>>) -> bool {
    forall|i: int, j: int| 0 <= i < j < s.len() ==> lex_lt(s[i], s[j])
}

pub proof fn lemma_lex_total(a: Seq<char>, b: Seq<char>)
    ensures
        a != b ==> lex_lt(a, b) || lex_lt(b, a),
    decreases a.len(),
{
    if a.len() == 0 && b.len() == 0 {
        assert(a =~= b);
    } else if a.len() == 0 || b.len() == 0 {
    } else if a[0] != b[0] {
    } else {
        let a1 = a.subrange(1, a.len() as int);
        let b1 = b.subrange(1, b.len() as int);
        lemma_lex_total(a1, b1);
        if a1 == b1 {
            assert(a =~= b) by {
                assert forall|i: int| 0 <= i < a.len() implies a[i] == b[i] by {
                    if i > 0 {
                        assert(a[i] == a1[i - 1]);
                        assert(b[i] == b1[i - 1]);
                    }
                }
            }
        }
    }
}

pub proof fn lemma_lex_transitive(a: Seq<char>, b: Seq<char>, c: Seq<char>)
    requires
        lex_lt(a, b),
        lex_lt(b, c),
    ensures
        lex_lt(a, c),
    decreases a.len(),
{
    if a.len() > 0 && b.len() > 0 && c.len() > 0 && a[0] == b[0] && b[0] == c[0] {
        lemma_lex_transitive(
            a.subrange(1, a.len() as int),
            b.subrange(1, b.len() as int),
            c.subrange(1, c.len() as int),
        );
    }
}

proof fn lemma_lex_skip(a: Seq<char>, b: Seq<char>, i: int)
    requires
        0 <= i <= a.len(),
        i <= b.len(),
        forall|j: int| 0 <= j < i ==> a[j] == b[j],
    ensures
        lex_lt(a, b) == lex_lt(a.subrange(i, a.len() as int), b.subrange(i, b.len() as int)),
    decreases i,
{
    if i == 0 {
        assert(a.subrange(0, a.len() as int) =~= a);
        assert(b.subrange(0, b.len() as int) =~= b);
    } else {
        let a1 = a.subrange(1, a.len() as int);
        let b1 = b.subrange(1, b.len() as int);
        assert(a[0] == b[0]);
        assert forall|j: int| 0 <= j < i - 1 implies a1[j] == b1[j] by {
            assert(a1[j] == a[j + 1]);
            assert(b1[j] == b[j + 1]);
        }
        lemma_lex_skip(a1, b1, i - 1);
        assert(a1.subrange(i - 1, a1.len() as int) =~= a.subrange(i, a.len() as int));
        assert(b1.subrange(i - 1, b1.len() as int) =~= b.subrange(i, b.len() as int));
    }
}

/// Whether `a` sorts strictly before `b`.
pub fn text_lt(a: &str, b: &str) -> (r: bool)
    ensures
        r == lex_lt(a@, b@),
{
    let na = a.unicode_len();
    let nb = b.unicode_len();
    let m = if na < nb {
        na
    } else {
        nb
    };
    let mut i: usize = 0;
    while i < m
        invariant
            na == a@.len(),
            nb == b@.len(),
            m <= na,
            m <= nb,
            0 <= i <= m,
            forall|j: int| 0 <= j < i ==> a@[j] == b@[j],
        decreases m - i,
    {
        let ca = a.get_char(i);
        let cb = b.get_char(i);
        if ca != cb {
            proof {
                lemma_lex_skip(a@, b@, i as int);
                let a1 = a@.subrange(i as int, na as int);
                let b1 = b@.subrange(i as int, nb as int);
                assert(a1[0] == ca);
                assert(b1[0] == cb);
            }
            return ca < cb;
        }
        i = i + 1;
    }
    proof {
        lemma_lex_skip(a@, b@, m as int);
    }
    na < nb
}

proof fn lemma_push_contains(a: Seq<Seq<char>>, x: Seq<char>)
    ensures
        forall|s: Seq<char>| #[trigger] a.push(x).contains(s) <==> a.contains(s) || s == x,
{
    assert forall|s: Seq<char>| #[trigger] a.push(x).contains(s) <==> a.contains(s) || s == x by {
        if a.contains(s) {
            let k = choose|k: int| 0 <= k < a.len() && a[k] == s;
            assert(a.push(x)[k] == s);
        }
        if s == x {
            assert(a.push(x)[a.len() as int] == s);
        }
        if a.push(x).contains(s) && s != x {
            let k = choose|k: int| 0 <= k < a.len() + 1 && a.push(x)[k] == s;
            assert(a[k] == s);
        }
    }
}

/// `keys` sorted and deduplicated: every key once, in lexicographic order.
pub fn sort_unique(keys: &Vec<String>) -> (r: Vec<String>)
    ensures
        strictly_sorted(views(r@)),
        forall|s: Seq<char>| views(r@).contains(s) <==> views(keys@).contains(s),
{
    let mut out: Vec<String> = Vec::new();
    let n = keys.len();
    let mut i: usize = 0;
    while i < n
        invariant
            n == keys@.len(),
            0 <= i <= n,
            strictly_sorted(views(out@)),
            forall|s: Seq<char>| views(out@).contains(s) <==> views(keys@).subrange(0, i as int).contains(s),
        decreases n - i,
    {
        let key = keys[i].clone();
        let ghost old_out = views(out@);
        let mut p: usize = 0;
        while p < out.len() && text_lt(out[p].as_str(), key.as_str())
            invariant
                views(out@) == old_out,
                0 <= p <= out@.len(),
                forall|x: int| 0 <= x < p ==> lex_lt(old_out[x], key@),
            decreases out@.len() - p,
        {
            p = p + 1;
        }
        let present = p < out.len() && same_text(out[p].as_str(), key.as_str());
        proof {
            assert(views(keys@).subrange(0, i + 1) =~= views(keys@).subrange(0, i as int).push(key@));
            lemma_push_contains(views(keys@).subrange(0, i as int), key@);
            lemma_push_contains(old_out, key@);
        }
        if !present {
            proof {
                if p < old_out.len() {
                    lemma_lex_total(old_out[p as int], key@);
                }
            }
            out.insert(p, key);
            proof {
                let now = views(out@);
                assert(now =~= old_out.insert(p as int, key@));
                assert forall|x: int, y: int| 0 <= x < y < now.len() implies lex_lt(now[x], now[y]) by {
                    if y < p {
                    } else if y == p {
                    } else if x < p {
                        assert(now[y] == old_out[y - 1]);
                    } else if x == p {
                        assert(now[y] == old_out[y - 1]);
                        if y - 1 > p {
                            lemma_lex_transitive(key@, old_out[p as int], old_out[y - 1]);
                        }
                    } else {
                        assert(now[x] == old_out[x - 1]);
                        assert(now[y] == old_out[y - 1]);
                    }
                }
                assert forall|s: Seq<char>| now.contains(s) <==> old_out.push(key@).contains(s) by {
                    let pushed = old_out.push(key@);
                    if now.contains(s) {
                        let x = choose|x: int| 0 <= x < now.len() && now[x] == s;
                        if x < p {
                            assert(now[x] == old_out[x]);
                            assert(pushed[x] == s);
                        } else if x > p {
                            assert(now[x] == old_out[x - 1]);
                            assert(pushed[x - 1] == s);
                        } else {
                            assert(pushed[old_out.len() as int] == s);
                        }
                    }
                    if pushed.contains(s) {
                        let x = choose|x: int| 0 <= x < pushed.len() && pushed[x] == s;
                        if x == old_out.len() {
                            assert(now[p as int] == s);
                        } else if x < p {
                            assert(now[x] == s);
                        } else {
                            assert(now[x + 1] == s);
                        }
                    }
                }
            }
        } else {
            proof {
                assert(old_out[p as int] == out@[p as int]@);
                assert(old_out[p as int] == key@);
                assert forall|s: Seq<char>| old_out.contains(s) <==> old_out.push(key@).contains(s) by {
                    if old_out.contains(s) {
                        let x = choose|x: int| 0 <= x < old_out.len() && old_out[x] == s;
                        assert(old_out.push(key@)[x] == s);
                    }
                    if s == key@ {
                        assert(old_out[p as int] == s);
                    }
                    if old_out.push(key@).contains(s) && s != key@ {
                        let x = choose|x: int| 0 <= x < old_out.len() + 1 && old_out.push(key@)[x] == s;
                        assert(old_out[x] == s);
                    }
                }
            }
        }
        i = i + 1;
    }
    proof {
        assert(views(keys@).subrange(0, n as int) =~= views(keys@));
    }
    out
}

} // verus!
