//! Configuration sources and the precedence they compose with.
use vstd::prelude::*;
use crate::value::{ConfigValue, Tree, entries_of, keys_unique, find_key, lemma_find_key, lemma_entries_of, lemma_entries_of_ext};
use crate::env::upsert;
use crate::merge::table_insert;
use std::path::PathBuf;

verus! {

/// One named source of configuration values.
///
/// Layers apply in the order they are added. A later layer's keys replace
/// earlier ones, while tables merge key by key (deep merge), so a late
/// layer can override a single nested field without clobbering its
/// siblings. Driven in the documented order this yields precedence
/// **overrides > env > file**.
#[derive(Debug, Clone, PartialEq)]
pub enum ConfigLayer {
    /// A configuration file, parsed at load time by extension: `.json`,
    /// `.yaml`/`.yml`, and anything else, no extension included, as TOML.
    ///
    /// The first field is the path as text, which picks the format and
    /// names the file in errors and attributions (a path that is not valid
    /// Unicode reads with each invalid sequence as U+FFFD, which picks the
    /// same format that its extension does); the second is the path
    /// itself, the file the caller reads.
    File(String, PathBuf),
    /// All environment variables sharing a prefix. The prefix is stripped
    /// and the remainder lowercased to form the top-level key; values are
    /// typed by inference.
    EnvPrefix(String),
    /// In-process values keyed by top-level field name.
    Overrides(Vec<(String, ConfigValue)>),
}

impl ConfigLayer {
    /// A file-backed layer parsed by extension.
    pub fn file(path: &str) -> (r: ConfigLayer)
        ensures
            r matches ConfigLayer::File(p, _) && p@ == path@,
    {
        ConfigLayer::File(String::from_str(path), path_of(path))
    }

    /// An environment layer matching every variable that starts with
    /// `prefix` (case-sensitive).
    pub fn env_prefix(prefix: &str) -> (r: ConfigLayer)
        ensures
            r matches ConfigLayer::EnvPrefix(p) && p@ == prefix@,
    {
        ConfigLayer::EnvPrefix(String::from_str(prefix))
    }

    /// An in-process override layer keyed by top-level field name. As in
    /// a map, a key given twice in one table keeps the later value, at
    /// every depth.
    pub fn overrides(overrides: Vec<(String, ConfigValue)>) -> (r: ConfigLayer)
        ensures
            r matches ConfigLayer::Overrides(t) && entries_of(t@) == normalized_entries(entries_of(overrides@))
                && keys_unique(Tree::Table(entries_of(t@))),
            keys_unique(Tree::Table(entries_of(overrides@))) ==> (r matches ConfigLayer::Overrides(t)
                && entries_of(t@) == entries_of(overrides@)),
    {
        let input = ConfigValue::Table(overrides);
        proof {
            lemma_normalized_unique(input@);
            if keys_unique(input@) {
                normalizing_keeps_a_unique_value(input@);
            }
        }
        let v = normalize(input);
        match v {
            ConfigValue::Table(t) => ConfigLayer::Overrides(t),
            _ => ConfigLayer::Overrides(Vec::new()),
        }
    }
}

#[verifier::external_type_specification]
#[verifier::external_body]
pub struct ExPathBuf(PathBuf);

/// `PathBuf`'s `clone`: a copy of the path. Nothing is stated of it here;
/// the library reads a file layer's path only as its text.
pub assume_specification[<PathBuf as Clone>::clone](p: &PathBuf) -> PathBuf;

/// `PathBuf::from(text)`: the path that `text` spells. Nothing is stated
/// of it here; the library reads a file layer's path only as its text.
#[verifier::external_body]
fn path_of(text: &str) -> PathBuf {
    PathBuf::from(text)
}

/// `t` with every table, at every depth, holding each key once: a key
/// given twice keeps its first position and its later value.
pub open spec fn normalized(t: Tree) -> Tree
    decreases t,
{
    match t {
        Tree::Table(e) => Tree::Table(normalized_entries(e)),
        _ => t,
    }
}

/// The entries of `e`, normalized, each key once.
pub open spec fn normalized_entries(e: Seq<(Seq<char>, Tree)>) -> Seq<(Seq<char>, Tree)>
    decreases e,
{
    if e.len() == 0 {
        Seq::empty()
    } else {
        upsert(normalized_entries(e.subrange(0, e.len() - 1)), e[e.len() - 1].0, normalized(e[e.len() - 1].1))
    }
}

/// A normalized value holds no key twice in any table.
pub proof fn lemma_normalized_unique(t: Tree)
    ensures
        keys_unique(normalized(t)),
    decreases t, 0nat,
{
    if let Tree::Table(e) = t {
        lemma_normalized_entries_unique(e);
    }
}

proof fn lemma_normalized_entries_unique(e: Seq<(Seq<char>, Tree)>)
    ensures
        keys_unique(Tree::Table(normalized_entries(e))),
    decreases e, e.len(),
{
    if e.len() > 0 {
        let n = e.len() - 1;
        let p = e.subrange(0, n);
        lemma_normalized_entries_unique(p);
        assert(decreases_to!(e => e[n]));
        assert(decreases_to!(e[n] => e[n].1));
        lemma_normalized_unique(e[n].1);
        let acc = normalized_entries(p);
        lemma_find_key(acc, e[n].0);
        let r = normalized_entries(e);
        assert forall|i: int| 0 <= i < r.len() implies keys_unique(#[trigger] r[i].1) by {
            if i < acc.len() {
                if find_key(acc, e[n].0) != Some(i) {
                    assert(r[i] == acc[i]);
                }
            }
        }
    }
}

/// Normalizing leaves a value that holds no key twice exactly as it is:
/// every value, of whatever kind, stays under its key.
pub proof fn normalizing_keeps_a_unique_value(t: Tree)
    requires
        keys_unique(t),
    ensures
        normalized(t) == t,
    decreases t, 0nat,
{
    if let Tree::Table(e) = t {
        lemma_normalized_entries_keep(e, e.len() as int);
        assert(e.subrange(0, e.len() as int) =~= e);
    }
}

proof fn lemma_normalized_entries_keep(e: Seq<(Seq<char>, Tree)>, n: int)
    requires
        keys_unique(Tree::Table(e)),
        0 <= n <= e.len(),
    ensures
        normalized_entries(e.subrange(0, n)) == e.subrange(0, n),
    decreases e, n,
{
    if n > 0 {
        let s = e.subrange(0, n);
        assert(s.subrange(0, n - 1) =~= e.subrange(0, n - 1));
        lemma_normalized_entries_keep(e, n - 1);
        assert(s[n - 1] == e[n - 1]);
        assert(decreases_to!(e => e[n - 1]));
        assert(decreases_to!(e[n - 1] => e[n - 1].1));
        normalizing_keeps_a_unique_value(e[n - 1].1);
        let p = e.subrange(0, n - 1);
        assert forall|j: int| 0 <= j < p.len() implies p[j].0 != e[n - 1].0 by {
            assert(p[j] == e[j]);
        }
        crate::value::lemma_find_key_none(p, e[n - 1].0);
        assert(p.push((e[n - 1].0, e[n - 1].1)) =~= s);
    }
}

/// Normalizing keeps every key: a key is in the normalized table exactly
/// when the input gives it, whatever the kind of its value, and it holds
/// the normalized last value given for it.
pub proof fn normalizing_keeps_every_key(e: Seq<(Seq<char>, Tree)>, k: Seq<char>)
    ensures
        (crate::value::lookup(normalized_entries(e), k) is Some) == (crate::value::lookup(e, k) is Some),
        (exists|i: int| 0 <= i < e.len() && e[i].0 == k && forall|j: int| i < j < e.len() ==> e[j].0 != k)
            ==> crate::value::lookup(normalized_entries(e), k) == Some(normalized(
            e[choose|i: int| 0 <= i < e.len() && e[i].0 == k && forall|j: int| i < j < e.len() ==> e[j].0 != k].1,
        )),
    decreases e.len(),
{
    if e.len() > 0 {
        let n = e.len() - 1;
        let p = e.subrange(0, n);
        normalizing_keeps_every_key(p, k);
        crate::env::lemma_lookup_upsert(normalized_entries(p), e[n].0, normalized(e[n].1), k);
        crate::value::lemma_find_key_push(p, e[n], k);
        assert(e =~= p.push(e[n]));
        crate::value::lemma_find_key(p, k);
        crate::value::lemma_find_key(e, k);
        if exists|i: int| 0 <= i < e.len() && e[i].0 == k && forall|j: int| i < j < e.len() ==> e[j].0 != k {
            let i = choose|i: int| 0 <= i < e.len() && e[i].0 == k && forall|j: int| i < j < e.len() ==> e[j].0 != k;
            if e[n].0 == k {
                assert(i == n);
            } else {
                assert(i < n);
                assert(p[i] == e[i]);
                assert forall|j: int| i < j < p.len() implies p[j].0 != k by {
                    assert(p[j] == e[j]);
                }
                assert(exists|i2: int| 0 <= i2 < p.len() && p[i2].0 == k && forall|j: int| i2 < j < p.len() ==> p[j].0 != k);
                let i2 = choose|i2: int| 0 <= i2 < p.len() && p[i2].0 == k && forall|j: int| i2 < j < p.len() ==> p[j].0 != k;
                assert(i2 == i) by {
                    if i2 < i {
                        assert(p[i].0 == k);
                    } else if i2 > i {
                        assert(e[i2] == p[i2]);
                    }
                }
            }
        }
    }
}

/// `v` with every table, at every depth, holding each key once; see
/// [`normalized`].
pub fn normalize(v: ConfigValue) -> (r: ConfigValue)
    ensures
        r@ == normalized(v@),
    decreases v@,
{
    let ghost v0 = v@;
    match v {
        ConfigValue::Table(entries) => {
            let ghost e0 = entries_of(entries@);
            let mut rest = entries;
            let mut out: Vec<(String, ConfigValue)> = Vec::new();
            let ghost mut n: int = 0;
            proof {
                assert(v0 == Tree::Table(e0));
                assert(e0.subrange(0, 0) =~= Seq::<(Seq<char>, Tree)>::empty());
                assert(e0.subrange(0, e0.len() as int) =~= e0);
                lemma_entries_of_ext(out@, Seq::empty());
                lemma_entries_of(rest@);
            }
            #[verifier::loop_isolation(false)]
            while rest.len() > 0
                invariant
                    0 <= n <= e0.len(),
                    v0 == Tree::Table(e0),
                    entries_of(out@) == normalized_entries(e0.subrange(0, n)),
                    entries_of(rest@) == e0.subrange(n, e0.len() as int),
                decreases rest.len(),
            {
                let ghost r_before = rest@;
                proof {
                    lemma_entries_of(r_before);
                    assert(entries_of(r_before)[0] == e0[n]);
                }
                let (key, value) = rest.remove(0);
                proof {
                    assert(rest@ =~= r_before.subrange(1, r_before.len() as int));
                    assert forall|j: int| 0 <= j < rest@.len() implies e0.subrange(n + 1, e0.len() as int)[j] == (
                        rest@[j].0@,
                        rest@[j].1@,
                    ) by {
                        assert(rest@[j] == r_before[j + 1]);
                        assert(entries_of(r_before)[j + 1] == e0[n + 1 + j]);
                    }
                    lemma_entries_of_ext(rest@, e0.subrange(n + 1, e0.len() as int));
                    assert(e0[n] == (key@, value@));
                    assert(decreases_to!(v0 => v0->Table_0));
                    assert(v0->Table_0 == e0);
                    assert(decreases_to!(e0 => e0[n]));
                    assert(decreases_to!(e0[n] => e0[n].1));
                    assert(decreases_to!(v0 => value@));
                    let next = e0.subrange(0, n + 1);
                    assert(next.subrange(0, n) =~= e0.subrange(0, n));
                    assert(next[n] == e0[n]);
                }
                let nv = normalize(value);
                table_insert(&mut out, key, nv);
                proof {
                    n = n + 1;
                }
            }
            proof {
                assert(e0.subrange(0, n) =~= e0);
            }
            ConfigValue::Table(out)
        },
        other => other,
    }
}

} // verus!
