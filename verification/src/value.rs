//! The configuration data model and its deep merge.
use vstd::prelude::*;

verus! {

/// A configuration value, shaped like a TOML value.
///
/// Floats travel as their IEEE-754 bit pattern and datetimes as their TOML
/// text, so every leaf is a plain value.
#[derive(Debug, PartialEq)]
pub enum ConfigValue {
    String(String),
    Integer(i64),
    Float(u64),
    Boolean(bool),
    Datetime(String),
    Array(Vec<ConfigValue>),
    Table(Vec<(String, ConfigValue)>),
}

/// The mathematical model of a [`ConfigValue`].
pub enum Tree {
    String(Seq<char>),
    Integer(i64),
    Float(u64),
    Boolean(bool),
    Datetime(Seq<char>),
    Array(Seq<Tree>),
    Table(Seq<(Seq<char>, Tree)>),
}

pub open spec fn tree_of(v: ConfigValue) -> Tree
    decreases v,
{
    match v {
        ConfigValue::String(s) => Tree::String(s@),
        ConfigValue::Integer(n) => Tree::Integer(n),
        ConfigValue::Float(b) => Tree::Float(b),
        ConfigValue::Boolean(b) => Tree::Boolean(b),
        ConfigValue::Datetime(s) => Tree::Datetime(s@),
        ConfigValue::Array(items) => Tree::Array(trees_of(items@)),
        ConfigValue::Table(entries) => Tree::Table(entries_of(entries@)),
    }
}

pub open spec fn trees_of(s: Seq<ConfigValue>) -> Seq<Tree>
    decreases s,
{
    if s.len() == 0 {
        Seq::empty()
    } else {
        trees_of(s.subrange(0, s.len() - 1)).push(tree_of(s[s.len() - 1]))
    }
}

pub open spec fn entries_of(s: Seq<(String, ConfigValue)>) -> Seq<(Seq<char>, Tree)>
    decreases s,
{
    if s.len() == 0 {
        Seq::empty()
    } else {
        entries_of(s.subrange(0, s.len() - 1)).push((s[s.len() - 1].0@, tree_of(s[s.len() - 1].1)))
    }
}

impl View for ConfigValue {
    type V = Tree;

    open spec fn view(&self) -> Tree {
        tree_of(*self)
    }
}


impl Clone for ConfigValue {
    /// A deep copy: the same value, leaf by leaf.
    #[verifier::loop_isolation(false)]
    fn clone(&self) -> (r: ConfigValue)
        ensures
            r@ == self@,
        decreases self,
    {
        match self {
            ConfigValue::String(s) => ConfigValue::String(s.clone()),
            ConfigValue::Integer(n) => ConfigValue::Integer(*n),
            ConfigValue::Float(b) => ConfigValue::Float(*b),
            ConfigValue::Boolean(b) => ConfigValue::Boolean(*b),
            ConfigValue::Datetime(s) => ConfigValue::Datetime(s.clone()),
            ConfigValue::Array(items) => {
                let mut out: Vec<ConfigValue> = Vec::new();
                let n = items.len();
                let mut i: usize = 0;
                while i < n
                    invariant
                        n == items@.len(),
                        0 <= i <= n,
                        out@.len() == i,
                        forall|j: int| 0 <= j < i ==> (#[trigger] out@[j])@ == items@[j]@,
                    decreases n - i,
                {
                    assert(decreases_to!(*self => *items));
                    assert(decreases_to!(*items => items@));
                    assert(decreases_to!(items@ => items@[i as int]));
                    out.push(items[i].clone());
                    i = i + 1;
                }
                proof {
                    lemma_trees_of_ext(out@, items@);
                }
                ConfigValue::Array(out)
            },
            ConfigValue::Table(entries) => {
                let mut out: Vec<(String, ConfigValue)> = Vec::new();
                let n = entries.len();
                let mut i: usize = 0;
                while i < n
                    invariant
                        n == entries@.len(),
                        0 <= i <= n,
                        out@.len() == i,
                        forall|j: int| 0 <= j < i ==> (#[trigger] out@[j]).0@ == entries@[j].0@ && out@[j].1@ == entries@[j].1@,
                    decreases n - i,
                {
                    assert(decreases_to!(*self => *entries));
                    assert(decreases_to!(*entries => entries@));
                    assert(decreases_to!(entries@ => entries@[i as int]));
                    assert(decreases_to!(entries@[i as int] => entries@[i as int].1));
                    let v = entries[i].1.clone();
                    out.push((entries[i].0.clone(), v));
                    i = i + 1;
                }
                proof {
                    lemma_entries_of(entries@);
                    lemma_entries_of_ext(out@, entries_of(entries@));
                }
                ConfigValue::Table(out)
            },
        }
    }
}

proof fn lemma_trees_of_ext(s: Seq<ConfigValue>, t: Seq<ConfigValue>)
    requires
        s.len() == t.len(),
        forall|i: int| 0 <= i < s.len() ==> (#[trigger] s[i])@ == t[i]@,
    ensures
        trees_of(s) == trees_of(t),
    decreases s.len(),
{
    if s.len() > 0 {
        let n = s.len() - 1;
        lemma_trees_of_ext(s.subrange(0, n), t.subrange(0, n));
        assert(s[n]@ == t[n]@);
    }
}

/// The position of the first entry whose key is `k`.
pub open spec fn find_key<V>(e: Seq<(Seq<char>, V)>, k: Seq<char>) -> Option<int>
    decreases e.len(),
{
    if e.len() == 0 {
        None
    } else {
        match find_key(e.subrange(0, e.len() - 1), k) {
            Some(i) => Some(i),
            None => if e[e.len() - 1].0 == k {
                Some(e.len() - 1)
            } else {
                None
            },
        }
    }
}

/// The value of the first entry whose key is `k`.
pub open spec fn lookup<V>(e: Seq<(Seq<char>, V)>, k: Seq<char>) -> Option<V> {
    match find_key(e, k) {
        Some(i) => Some(e[i].1),
        None => None,
    }
}

/// No key occurs twice.
pub open spec fn distinct_keys<V>(e: Seq<(Seq<char>, V)>) -> bool {
    forall|i: int, j: int| 0 <= i < j < e.len() ==> e[i].0 != e[j].0
}

/// Deep merge of `over` into `base`: two tables merge key by key, anything
/// else is replaced by `over` outright.
pub open spec fn merge(base: Tree, over: Tree) -> Tree
    decreases over,
{
    match over {
        Tree::Table(o) => match base {
            Tree::Table(b) => Tree::Table(merge_entries(b, o)),
            _ => over,
        },
        _ => over,
    }
}

/// The entries of `b` after the entries of `o` are merged in, in order: an
/// entry whose key is present merges into that entry in place, any other
/// entry is appended.
pub open spec fn merge_entries(b: Seq<(Seq<char>, Tree)>, o: Seq<(Seq<char>, Tree)>) -> Seq<
    (Seq<char>, Tree),
>
    decreases o,
{
    if o.len() == 0 {
        b
    } else {
        let acc = merge_entries(b, o.subrange(0, o.len() - 1));
        let k = o[o.len() - 1].0;
        let v = o[o.len() - 1].1;
        match find_key(acc, k) {
            Some(i) => acc.update(i, (k, merge(acc[i].1, v))),
            None => acc.push((k, v)),
        }
    }
}

/// No table, at any depth, holds a key twice.
pub open spec fn keys_unique(t: Tree) -> bool
    decreases t,
{
    match t {
        Tree::Table(e) => distinct_keys(e) && forall|i: int| 0 <= i < e.len() ==> keys_unique(#[trigger] e[i].1),
        _ => true,
    }
}

/// Where merging `over` into `base` puts a value of `over` in place along
/// the key path `segs`: `Some(d)` when the value at the first `d` segments
/// is replaced or inserted outright (0 for the root itself), `None` when
/// every step along `segs` is a table merging into a table, or `over`
/// holds nothing there.
pub open spec fn supplied_depth(base: Tree, over: Tree, segs: Seq<Seq<char>>) -> Option<nat>
    decreases segs.len(),
{
    match over {
        Tree::Table(ov) => match base {
            Tree::Table(b) => if segs.len() == 0 {
                None
            } else {
                match lookup(ov, segs[0]) {
                    None => None,
                    Some(v) => match lookup(b, segs[0]) {
                        None => Some(1),
                        Some(x) => match supplied_depth(x, v, segs.subrange(1, segs.len() as int)) {
                            Some(d) => Some(d + 1),
                            None => None,
                        },
                    },
                }
            },
            _ => Some(0),
        },
        _ => Some(0),
    }
}

pub proof fn lemma_find_key<V>(e: Seq<(Seq<char>, V)>, k: Seq<char>)
    ensures
        find_key(e, k) matches Some(i) ==> 0 <= i < e.len() && e[i].0 == k && forall|j: int|
            0 <= j < i ==> e[j].0 != k,
        find_key(e, k) is None ==> forall|j: int| 0 <= j < e.len() ==> e[j].0 != k,
    decreases e.len(),
{
    if e.len() > 0 {
        let p = e.subrange(0, e.len() - 1);
        lemma_find_key(p, k);
        assert forall|j: int| 0 <= j < p.len() implies p[j] == e[j] by {}
        match find_key(p, k) {
            Some(i) => {
                assert(e[i] == p[i]);
            },
            None => {
                assert forall|j: int| 0 <= j < e.len() - 1 implies e[j].0 != k by {
                    assert(e[j] == p[j]);
                }
            },
        }
    }
}

/// The first entry with key `k` is at `i`.
pub proof fn lemma_find_key_at<V>(e: Seq<(Seq<char>, V)>, k: Seq<char>, i: int)
    requires
        0 <= i < e.len(),
        e[i].0 == k,
        forall|j: int| 0 <= j < i ==> e[j].0 != k,
    ensures
        find_key(e, k) == Some(i),
{
    lemma_find_key(e, k);
}

/// No entry has key `k`.
pub proof fn lemma_find_key_none<V>(e: Seq<(Seq<char>, V)>, k: Seq<char>)
    requires
        forall|j: int| 0 <= j < e.len() ==> e[j].0 != k,
    ensures
        find_key(e, k) is None,
{
    lemma_find_key(e, k);
}

/// Sequences with the same keys, position by position, find the same
/// positions.
pub proof fn lemma_find_key_same_keys<V, W>(e: Seq<(Seq<char>, V)>, f: Seq<(Seq<char>, W)>, k: Seq<char>)
    requires
        e.len() == f.len(),
        forall|j: int| 0 <= j < e.len() ==> e[j].0 == f[j].0,
    ensures
        find_key(e, k) == find_key(f, k),
{
    lemma_find_key(e, k);
    lemma_find_key(f, k);
    match find_key(e, k) {
        Some(i) => lemma_find_key_at(f, k, i),
        None => lemma_find_key_none(f, k),
    }
}

pub proof fn lemma_find_key_push<V>(e: Seq<(Seq<char>, V)>, p: (Seq<char>, V), k: Seq<char>)
    ensures
        find_key(e.push(p), k) == match find_key(e, k) {
            Some(i) => Some(i),
            None => if p.0 == k {
                Some(e.len() as int)
            } else {
                None
            },
        },
{
    assert(e.push(p).subrange(0, e.len() as int) =~= e);
}


/// Updating the value at a position leaves every key search as it was.
pub proof fn lemma_find_key_update<V>(e: Seq<(Seq<char>, V)>, i: int, v: V, k: Seq<char>)
    requires
        0 <= i < e.len(),
    ensures
        find_key(e.update(i, (e[i].0, v)), k) == find_key(e, k),
{
    let f = e.update(i, (e[i].0, v));
    assert forall|j: int| 0 <= j < e.len() implies e[j].0 == f[j].0 by {}
    lemma_find_key_same_keys(e, f, k);
}

/// Later layers win: after the entries of `over` (no key twice) merge into
/// `base`, a key that `over` lacks keeps its value from `base`, a key that
/// only `over` has takes its value from `over`, and a key that both have
/// holds the deep merge of the two values, so a nested override leaves its
/// siblings in place.
pub proof fn merge_lookup(base: Seq<(Seq<char>, Tree)>, over: Seq<(Seq<char>, Tree)>, k: Seq<char>)
    requires
        distinct_keys(over),
    ensures
        lookup(merge_entries(base, over), k) == match lookup(over, k) {
            None => lookup(base, k),
            Some(v) => match lookup(base, k) {
                None => Some(v),
                Some(x) => Some(merge(x, v)),
            },
        },
    decreases over.len(),
{
    if over.len() > 0 {
        let n = over.len() - 1;
        let prefix = over.subrange(0, n);
        let acc = merge_entries(base, prefix);
        let kl = over[n].0;
        let vl = over[n].1;
        assert(distinct_keys(prefix));
        merge_lookup(base, prefix, k);
        assert forall|j: int| 0 <= j < prefix.len() implies prefix[j] == over[j] by {}
        lemma_find_key(acc, k);
        lemma_find_key(acc, kl);
        if kl == k {
            assert forall|j: int| 0 <= j < prefix.len() implies prefix[j].0 != k by {
                assert(over[j].0 != over[n].0);
            }
            lemma_find_key_none(prefix, k);
            lemma_find_key_at(over, k, n);
            assert(lookup(over, k) == Some(vl));
            assert(lookup(prefix, k) is None);
            assert(lookup(acc, k) == lookup(base, k));
            match find_key(acc, kl) {
                Some(i) => {
                    assert(acc[i].0 == k);
                    lemma_find_key_update(acc, i, merge(acc[i].1, vl), k);
                    let r = acc.update(i, (k, merge(acc[i].1, vl)));
                    assert(merge_entries(base, over) == r);
                    assert(find_key(r, k) == Some(i));
                    assert(lookup(r, k) == Some(merge(acc[i].1, vl)));
                },
                None => {
                    lemma_find_key_push(acc, (kl, vl), k);
                    let r = acc.push((k, vl));
                    assert(merge_entries(base, over) == r);
                    assert(find_key(r, k) == Some(acc.len() as int));
                    assert(lookup(r, k) == Some(vl));
                },
            }
        } else {
            lemma_find_key_push(prefix, (kl, vl), k);
            assert(over =~= prefix.push((kl, vl)));
            assert(find_key(over, k) == find_key(prefix, k));
            if let Some(j) = find_key(prefix, k) {
                lemma_find_key(prefix, k);
                assert(prefix[j] == over[j]);
            }
            assert(lookup(over, k) == lookup(prefix, k));
            match find_key(acc, kl) {
                Some(i) => {
                    assert(acc[i].0 == kl);
                    lemma_find_key_update(acc, i, merge(acc[i].1, vl), k);
                    let r = acc.update(i, (kl, merge(acc[i].1, vl)));
                    assert(merge_entries(base, over) == r);
                    if let Some(j) = find_key(acc, k) {
                        assert(acc[j].0 == k);
                        assert(j != i);
                        assert(r[j] == acc[j]);
                    }
                    assert(lookup(r, k) == lookup(acc, k));
                },
                None => {
                    lemma_find_key_push(acc, (kl, vl), k);
                    let r = acc.push((kl, vl));
                    assert(merge_entries(base, over) == r);
                    if let Some(j) = find_key(acc, k) {
                        assert(r[j] == acc[j]);
                    }
                    assert(lookup(r, k) == lookup(acc, k));
                },
            }
        }
    }
}

/// A value merged into itself is unchanged.
pub proof fn lemma_merge_self(t: Tree)
    requires
        keys_unique(t),
    ensures
        merge(t, t) == t,
    decreases t, 0nat,
{
    if let Tree::Table(e) = t {
        lemma_merge_entries_self(e, e.len() as int);
        assert(e.subrange(0, e.len() as int) =~= e);
    }
}

proof fn lemma_merge_entries_self(e: Seq<(Seq<char>, Tree)>, n: int)
    requires
        keys_unique(Tree::Table(e)),
        0 <= n <= e.len(),
    ensures
        merge_entries(e, e.subrange(0, n)) == e,
    decreases e, n,
{
    if n > 0 {
        let o = e.subrange(0, n);
        assert(o.subrange(0, n - 1) =~= e.subrange(0, n - 1));
        lemma_merge_entries_self(e, n - 1);
        let k = e[n - 1].0;
        assert(o[n - 1] == e[n - 1]);
        lemma_find_key_at(e, k, n - 1);
        assert(decreases_to!(e => e[n - 1]));
        assert(decreases_to!(e[n - 1] => e[n - 1].1));
        lemma_merge_self(e[n - 1].1);
        assert(e.update(n - 1, (k, merge(e[n - 1].1, e[n - 1].1))) =~= e);
    }
}

/// Merging the same layer twice gives what merging it once gives.
pub proof fn merge_is_idempotent(base: Tree, over: Tree)
    requires
        keys_unique(over),
    ensures
        merge(merge(base, over), over) == merge(base, over),
    decreases over, 0nat,
{
    if let Tree::Table(ov) = over {
        if let Tree::Table(b) = base {
            lemma_merge_entries_again(b, ov, ov.len() as int);
            assert(ov.subrange(0, ov.len() as int) =~= ov);
        } else {
            lemma_merge_self(over);
        }
    }
}

proof fn lemma_merge_entries_again(b: Seq<(Seq<char>, Tree)>, o: Seq<(Seq<char>, Tree)>, n: int)
    requires
        keys_unique(Tree::Table(o)),
        0 <= n <= o.len(),
    ensures
        merge_entries(merge_entries(b, o), o.subrange(0, n)) == merge_entries(b, o),
    decreases o, n,
{
    if n > 0 {
        let m = merge_entries(b, o);
        let s = o.subrange(0, n);
        assert(s.subrange(0, n - 1) =~= o.subrange(0, n - 1));
        lemma_merge_entries_again(b, o, n - 1);
        let k = o[n - 1].0;
        let v = o[n - 1].1;
        assert(s[n - 1] == o[n - 1]);
        lemma_find_key_at(o, k, n - 1);
        merge_lookup(b, o, k);
        lemma_find_key(m, k);
        let i = find_key(m, k).unwrap();
        assert(decreases_to!(o => o[n - 1]));
        assert(decreases_to!(o[n - 1] => o[n - 1].1));
        match lookup(b, k) {
            Some(x) => {
                merge_is_idempotent(x, v);
            },
            None => {
                lemma_merge_self(v);
            },
        }
        assert(m.update(i, (k, merge(m[i].1, v))) =~= m);
    }
}

/// Merging keeps every table's keys unique: when neither value holds a key
/// twice in any table, neither does their merge.
pub proof fn merge_keeps_keys_unique(base: Tree, over: Tree)
    requires
        keys_unique(base),
        keys_unique(over),
    ensures
        keys_unique(merge(base, over)),
    decreases over, 0nat,
{
    if let Tree::Table(ov) = over {
        if let Tree::Table(b) = base {
            lemma_merge_entries_unique(b, ov, ov.len() as int);
            assert(ov.subrange(0, ov.len() as int) =~= ov);
        }
    }
}

proof fn lemma_merge_entries_unique(b: Seq<(Seq<char>, Tree)>, o: Seq<(Seq<char>, Tree)>, n: int)
    requires
        keys_unique(Tree::Table(b)),
        keys_unique(Tree::Table(o)),
        0 <= n <= o.len(),
    ensures
        keys_unique(Tree::Table(merge_entries(b, o.subrange(0, n)))),
    decreases o, n,
{
    if n > 0 {
        let s = o.subrange(0, n);
        assert(s.subrange(0, n - 1) =~= o.subrange(0, n - 1));
        lemma_merge_entries_unique(b, o, n - 1);
        let acc = merge_entries(b, o.subrange(0, n - 1));
        let k = o[n - 1].0;
        let v = o[n - 1].1;
        assert(s[n - 1] == o[n - 1]);
        lemma_find_key(acc, k);
        let r = merge_entries(b, s);
        match find_key(acc, k) {
            Some(i) => {
                assert(decreases_to!(o => o[n - 1]));
                assert(decreases_to!(o[n - 1] => o[n - 1].1));
                merge_keeps_keys_unique(acc[i].1, v);
                assert(r == acc.update(i, (k, merge(acc[i].1, v))));
                assert forall|j: int| 0 <= j < r.len() implies keys_unique(#[trigger] r[j].1) by {
                    if j != i {
                        assert(r[j] == acc[j]);
                    }
                }
            },
            None => {
                assert(r == acc.push((k, v)));
                assert forall|j: int| 0 <= j < r.len() implies keys_unique(#[trigger] r[j].1) by {
                    if j < acc.len() {
                        assert(r[j] == acc[j]);
                    }
                }
            },
        }
    }
}

/// The model of a table, entry by entry.
pub proof fn lemma_entries_of(s: Seq<(String, ConfigValue)>)
    ensures
        entries_of(s).len() == s.len(),
        forall|i: int| 0 <= i < s.len() ==> #[trigger] entries_of(s)[i] == (s[i].0@, s[i].1@),
    decreases s.len(),
{
    if s.len() > 0 {
        let p = s.subrange(0, s.len() - 1);
        lemma_entries_of(p);
        assert forall|i: int| 0 <= i < s.len() implies #[trigger] entries_of(s)[i] == (
            s[i].0@,
            s[i].1@,
        ) by {
            if i < s.len() - 1 {
                assert(p[i] == s[i]);
            }
        }
    }
}

/// Two tables with the same entry models have the same model.
pub proof fn lemma_entries_of_ext(s: Seq<(String, ConfigValue)>, t: Seq<(Seq<char>, Tree)>)
    requires
        s.len() == t.len(),
        forall|i: int| 0 <= i < s.len() ==> t[i] == (s[i].0@, s[i].1@),
    ensures
        entries_of(s) == t,
{
    lemma_entries_of(s);
    assert(entries_of(s) =~= t);
}


/// Precedence when three layers (file, then environment, then overrides;
/// no key twice within the last two) merge: a plain value that the
/// overrides supply is the one that stays; failing that, a plain value
/// that the environment supplies; a key that neither supplies keeps the
/// file's value.
pub proof fn layered_precedence(
    file: Seq<(Seq<char>, Tree)>,
    env: Seq<(Seq<char>, Tree)>,
    over: Seq<(Seq<char>, Tree)>,
    k: Seq<char>,
)
    requires
        distinct_keys(env),
        distinct_keys(over),
    ensures
        lookup(over, k) is Some && !(lookup(over, k).unwrap() is Table) ==> lookup(
            merge_entries(merge_entries(file, env), over),
            k,
        ) == lookup(over, k),
        lookup(over, k) is None && lookup(env, k) is Some && !(lookup(env, k).unwrap() is Table)
            ==> lookup(merge_entries(merge_entries(file, env), over), k) == lookup(env, k),
        lookup(over, k) is None && lookup(env, k) is None ==> lookup(
            merge_entries(merge_entries(file, env), over),
            k,
        ) == lookup(file, k),
{
    merge_lookup(file, env, k);
    merge_lookup(merge_entries(file, env), over, k);
}

} // verus!
