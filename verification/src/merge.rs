//! The tracked deep merge: values merge key by key and every write is
//! attributed to the layer that performed it.
use vstd::prelude::*;
use crate::provenance::{Origin, OriginView, Provenance, record_provenance, record, clear_under, extends, strictly_under};
use crate::text::{views, same_text};
use crate::value::{ConfigValue, Tree, find_key, entries_of, merge, merge_entries, lookup, distinct_keys, keys_unique, supplied_depth, merge_lookup, lemma_entries_of, lemma_entries_of_ext, lemma_find_key, lemma_find_key_at, lemma_find_key_none, lemma_find_key_push};

verus! {

/// `m` after the value at `root` is replaced outright by `o`: below it
/// nothing stays attributed, and the value itself is attributed unless it
/// is the root of the merge.
pub open spec fn replace_at(m: Map<Seq<Seq<char>>, OriginView>, root: Seq<Seq<char>>, o: OriginView) -> Map<
    Seq<Seq<char>>,
    OriginView,
> {
    if root.len() > 0 {
        record(m, root, o)
    } else {
        clear_under(m, root)
    }
}

/// The attributions after `over` merges into `base` at `root` from `o`:
/// each value put in place is attributed to `o`, in merge order.
pub open spec fn track(
    prov: Map<Seq<Seq<char>>, OriginView>,
    base: Tree,
    over: Tree,
    root: Seq<Seq<char>>,
    o: OriginView,
) -> Map<Seq<Seq<char>>, OriginView>
    decreases over,
{
    match over {
        Tree::Table(ov) => match base {
            Tree::Table(b) => track_entries(prov, b, ov, root, o),
            _ => replace_at(prov, root, o),
        },
        _ => replace_at(prov, root, o),
    }
}

/// The attributions after the entries of `ov` merge into the table `b`
/// at `root` from `o`.
pub open spec fn track_entries(
    prov: Map<Seq<Seq<char>>, OriginView>,
    b: Seq<(Seq<char>, Tree)>,
    ov: Seq<(Seq<char>, Tree)>,
    root: Seq<Seq<char>>,
    o: OriginView,
) -> Map<Seq<Seq<char>>, OriginView>
    decreases ov,
{
    if ov.len() == 0 {
        prov
    } else {
        let prefix = ov.subrange(0, ov.len() - 1);
        let p = track_entries(prov, b, prefix, root, o);
        let acc = merge_entries(b, prefix);
        let k = ov[ov.len() - 1].0;
        let v = ov[ov.len() - 1].1;
        match find_key(acc, k) {
            Some(i) => track(p, acc[i].1, v, root.push(k), o),
            None => record(p, root.push(k), o),
        }
    }
}

/// `m1` and `m2` say the same of the path `p`.
pub open spec fn agree_at(
    m1: Map<Seq<Seq<char>>, OriginView>,
    m2: Map<Seq<Seq<char>>, OriginView>,
    p: Seq<Seq<char>>,
) -> bool {
    m1.contains_key(p) == m2.contains_key(p) && (m1.contains_key(p) ==> m1[p] == m2[p])
}

proof fn lemma_push_prefix(p: Seq<Seq<char>>, root: Seq<Seq<char>>, k: Seq<char>)
    ensures
        extends(p, root.push(k)) ==> strictly_under(p, root) && p[root.len() as int] == k,
        strictly_under(p, root) ==> extends(p, root.push(p[root.len() as int])),
        strictly_under(p, root.push(k)) ==> strictly_under(p, root),
{
    let n = root.len() as int;
    if extends(p, root.push(k)) {
        assert(p.subrange(0, n) =~= p.subrange(0, n + 1).subrange(0, n));
        assert(root.push(k).subrange(0, n) =~= root);
        assert(p[n] == p.subrange(0, n + 1)[n]);
    }
    if strictly_under(p, root) {
        assert(p.subrange(0, n + 1) =~= root.push(p[n]));
    }
    if strictly_under(p, root.push(k)) {
        assert(p.subrange(0, n) =~= p.subrange(0, n + 1).subrange(0, n));
        assert(root.push(k).subrange(0, n) =~= root);
    }
}

/// Merging at `root` leaves alone every path that is not at or below it.
proof fn lemma_track_frame(
    prov: Map<Seq<Seq<char>>, OriginView>,
    base: Tree,
    over: Tree,
    root: Seq<Seq<char>>,
    o: OriginView,
    p: Seq<Seq<char>>,
)
    requires
        !extends(p, root),
    ensures
        agree_at(track(prov, base, over, root, o), prov, p),
    decreases over, 0nat,
{
    assert(root.subrange(0, root.len() as int) =~= root);
    assert(p != root);
    assert(!strictly_under(p, root));
    match over {
        Tree::Table(ov) => match base {
            Tree::Table(b) => {
                lemma_track_entries_frame(prov, b, ov, root, o, p);
            },
            _ => {
                assert(agree_at(clear_under(prov, root), prov, p));
            },
        },
        _ => {
            assert(agree_at(clear_under(prov, root), prov, p));
        },
    }
}

/// Merging entries below `root` leaves alone every path that is not
/// strictly below it.
proof fn lemma_track_entries_frame(
    prov: Map<Seq<Seq<char>>, OriginView>,
    b: Seq<(Seq<char>, Tree)>,
    ov: Seq<(Seq<char>, Tree)>,
    root: Seq<Seq<char>>,
    o: OriginView,
    p: Seq<Seq<char>>,
)
    requires
        !strictly_under(p, root),
    ensures
        agree_at(track_entries(prov, b, ov, root, o), prov, p),
    decreases ov, ov.len(),
{
    if ov.len() > 0 {
        let n = ov.len() - 1;
        let prefix = ov.subrange(0, n);
        lemma_track_entries_frame(prov, b, prefix, root, o, p);
        let pm = track_entries(prov, b, prefix, root, o);
        let acc = merge_entries(b, prefix);
        let k = ov[n].0;
        lemma_push_prefix(p, root, k);
        match find_key(acc, k) {
            Some(i) => {
                assert(decreases_to!(ov => ov[n]));
                assert(decreases_to!(ov[n] => ov[n].1));
                lemma_track_frame(pm, acc[i].1, ov[n].1, root.push(k), o, p);
            },
            None => {
                let q = root.push(k);
                assert(q.subrange(0, q.len() as int) =~= q);
                assert(p != q);
                assert(agree_at(clear_under(pm, q), pm, p));
            },
        }
    }
}

/// What merging does at a path depends only on what was attributed there.
proof fn lemma_track_congruent(
    m1: Map<Seq<Seq<char>>, OriginView>,
    m2: Map<Seq<Seq<char>>, OriginView>,
    base: Tree,
    over: Tree,
    root: Seq<Seq<char>>,
    o: OriginView,
    p: Seq<Seq<char>>,
)
    requires
        agree_at(m1, m2, p),
    ensures
        agree_at(track(m1, base, over, root, o), track(m2, base, over, root, o), p),
    decreases over, 0nat,
{
    match over {
        Tree::Table(ov) => match base {
            Tree::Table(b) => {
                lemma_track_entries_congruent(m1, m2, b, ov, root, o, p);
            },
            _ => {},
        },
        _ => {},
    }
}

proof fn lemma_track_entries_congruent(
    m1: Map<Seq<Seq<char>>, OriginView>,
    m2: Map<Seq<Seq<char>>, OriginView>,
    b: Seq<(Seq<char>, Tree)>,
    ov: Seq<(Seq<char>, Tree)>,
    root: Seq<Seq<char>>,
    o: OriginView,
    p: Seq<Seq<char>>,
)
    requires
        agree_at(m1, m2, p),
    ensures
        agree_at(track_entries(m1, b, ov, root, o), track_entries(m2, b, ov, root, o), p),
    decreases ov, ov.len(),
{
    if ov.len() > 0 {
        let n = ov.len() - 1;
        let prefix = ov.subrange(0, n);
        lemma_track_entries_congruent(m1, m2, b, prefix, root, o, p);
        let p1 = track_entries(m1, b, prefix, root, o);
        let p2 = track_entries(m2, b, prefix, root, o);
        let acc = merge_entries(b, prefix);
        let k = ov[n].0;
        match find_key(acc, k) {
            Some(i) => {
                assert(decreases_to!(ov => ov[n]));
                assert(decreases_to!(ov[n] => ov[n].1));
                lemma_track_congruent(p1, p2, acc[i].1, ov[n].1, root.push(k), o, p);
            },
            None => {},
        }
    }
}

/// What merging the entries `ov` does below the key `k` of `root`: what
/// merging the value `ov` holds for `k` alone does there.
pub open spec fn entry_effect(
    prov: Map<Seq<Seq<char>>, OriginView>,
    b: Seq<(Seq<char>, Tree)>,
    ov: Seq<(Seq<char>, Tree)>,
    root: Seq<Seq<char>>,
    o: OriginView,
    k: Seq<char>,
) -> Map<Seq<Seq<char>>, OriginView> {
    match lookup(ov, k) {
        None => prov,
        Some(v) => match lookup(b, k) {
            Some(x) => track(prov, x, v, root.push(k), o),
            None => record(prov, root.push(k), o),
        },
    }
}

proof fn lemma_track_entries_at(
    prov: Map<Seq<Seq<char>>, OriginView>,
    b: Seq<(Seq<char>, Tree)>,
    ov: Seq<(Seq<char>, Tree)>,
    root: Seq<Seq<char>>,
    o: OriginView,
    k: Seq<char>,
    p: Seq<Seq<char>>,
)
    requires
        distinct_keys(ov),
        extends(p, root.push(k)),
    ensures
        agree_at(track_entries(prov, b, ov, root, o), entry_effect(prov, b, ov, root, o, k), p),
    decreases ov.len(),
{
    if ov.len() > 0 {
        let n = ov.len() - 1;
        let prefix = ov.subrange(0, n);
        let kl = ov[n].0;
        let vl = ov[n].1;
        assert(distinct_keys(prefix));
        assert forall|j: int| 0 <= j < prefix.len() implies prefix[j] == ov[j] by {}
        lemma_track_entries_at(prov, b, prefix, root, o, k, p);
        let pm = track_entries(prov, b, prefix, root, o);
        let acc = merge_entries(b, prefix);
        lemma_find_key(acc, kl);
        if kl == k {
            assert forall|j: int| 0 <= j < prefix.len() implies prefix[j].0 != k by {
                assert(ov[j].0 != ov[n].0);
            }
            lemma_find_key_none(prefix, k);
            lemma_find_key_at(ov, k, n);
            assert(lookup(ov, k) == Some(vl));
            assert(entry_effect(prov, b, prefix, root, o, k) == prov);
            merge_lookup(b, prefix, k);
            assert(lookup(acc, k) == lookup(b, k));
            match find_key(acc, k) {
                Some(i) => {
                    assert(lookup(b, k) == Some(acc[i].1));
                    lemma_track_congruent(pm, prov, acc[i].1, vl, root.push(k), o, p);
                },
                None => {
                    assert(lookup(b, k) is None);
                },
            }
        } else {
            lemma_find_key_push(prefix, (kl, vl), k);
            assert(ov =~= prefix.push((kl, vl)));
            if let Some(j) = find_key(prefix, k) {
                lemma_find_key(prefix, k);
                assert(prefix[j] == ov[j]);
            }
            assert(lookup(ov, k) == lookup(prefix, k));
            lemma_push_prefix(p, root, k);
            lemma_push_prefix(p, root, kl);
            assert(!extends(p, root.push(kl)));
            match find_key(acc, kl) {
                Some(i) => {
                    lemma_track_frame(pm, acc[i].1, vl, root.push(kl), o, p);
                },
                None => {},
            }
        }
    }
}

/// A value in a table whose keys are unique at every depth has unique
/// keys too.
pub proof fn lemma_keys_unique_lookup(e: Seq<(Seq<char>, Tree)>, k: Seq<char>)
    requires
        keys_unique(Tree::Table(e)),
        lookup(e, k) is Some,
    ensures
        keys_unique(lookup(e, k).unwrap()),
{
    lemma_find_key(e, k);
}

/// What merging does at a path `p` at or below `root`, by where
/// [`supplied_depth`] puts the supplied value along the rest of `p`: the
/// path keeps its attribution when nothing is put in place at or above
/// it, is attributed to the merging layer when the value put in place is
/// the one at `p`, and loses its attribution when a value above it was
/// put in place.
pub proof fn lemma_track_descent(
    prov: Map<Seq<Seq<char>>, OriginView>,
    base: Tree,
    over: Tree,
    root: Seq<Seq<char>>,
    o: OriginView,
    p: Seq<Seq<char>>,
)
    requires
        keys_unique(over),
        extends(p, root),
    ensures
        ({
            let rest = p.subrange(root.len() as int, p.len() as int);
            let after = track(prov, base, over, root, o);
            &&& supplied_depth(base, over, rest) is None ==> agree_at(after, prov, p)
            &&& supplied_depth(base, over, rest) == Some(rest.len()) && p.len() > 0 ==> after.contains_key(p)
                && after[p] == o
            &&& (supplied_depth(base, over, rest) matches Some(d) && d < rest.len()) ==> !after.contains_key(p)
        }),
    decreases over,
{
    let n = root.len() as int;
    let rest = p.subrange(n, p.len() as int);
    assert(p.subrange(0, n) == root);
    if rest.len() == 0 {
        assert(p =~= root);
    } else {
        assert(strictly_under(p, root));
    }
    match over {
        Tree::Table(ov) => match base {
            Tree::Table(b) => {
                if rest.len() == 0 {
                    lemma_track_entries_frame(prov, b, ov, root, o, p);
                } else {
                    let k = rest[0];
                    assert(p[n] == k);
                    lemma_push_prefix(p, root, k);
                    assert(extends(p, root.push(k)));
                    lemma_track_entries_at(prov, b, ov, root, o, k, p);
                    match lookup(ov, k) {
                        None => {},
                        Some(v) => match lookup(b, k) {
                            None => {
                                if rest.len() == 1 {
                                    assert(p =~= root.push(k));
                                } else {
                                    assert(strictly_under(p, root.push(k)));
                                }
                            },
                            Some(x) => {
                                lemma_keys_unique_lookup(ov, k);
                                lemma_find_key(ov, k);
                                let i = find_key(ov, k).unwrap();
                                assert(decreases_to!(over => ov));
                                assert(decreases_to!(ov => ov[i]));
                                assert(decreases_to!(ov[i] => ov[i].1));
                                lemma_track_descent(prov, x, v, root.push(k), o, p);
                                assert(p.subrange(n + 1, p.len() as int) =~= rest.subrange(1, rest.len() as int));
                            },
                        },
                    }
                }
            },
            _ => {},
        },
        _ => {},
    }
}

/// The position of the first entry of `table` whose key is `key`.
pub fn find_index(table: &Vec<(String, ConfigValue)>, key: &String) -> (r: Option<usize>)
    ensures
        match r {
            Some(i) => find_key(entries_of(table@), key@) == Some(i as int),
            None => find_key(entries_of(table@), key@) is None,
        },
{
    proof {
        lemma_entries_of(table@);
    }
    let n = table.len();
    let mut i: usize = 0;
    while i < n
        invariant
            n == table@.len(),
            0 <= i <= n,
            entries_of(table@).len() == n,
            forall|j: int| 0 <= j < n ==> #[trigger] entries_of(table@)[j] == (table@[j].0@, table@[j].1@),
            forall|j: int| 0 <= j < i ==> entries_of(table@)[j].0 != key@,
        decreases n - i,
    {
        if same_text(table[i].0.as_str(), key.as_str()) {
            proof {
                lemma_find_key_at(entries_of(table@), key@, i as int);
            }
            return Some(i);
        }
        i = i + 1;
    }
    proof {
        lemma_find_key_none(entries_of(table@), key@);
    }
    None
}

/// Sets `key` to `value` in `table`: replaces the value of the entry keyed
/// `key`, or appends a new entry when there is none.
pub fn table_insert(table: &mut Vec<(String, ConfigValue)>, key: String, value: ConfigValue)
    ensures
        entries_of(final(table)@) == crate::env::upsert(entries_of(old(table)@), key@, value@),
{
    let found = find_index(table, &key);
    let ghost before = table@;
    proof {
        lemma_entries_of(before);
        lemma_find_key(entries_of(before), key@);
    }
    let ghost kv = key@;
    let ghost vv = value@;
    match found {
        Some(i) => {
            table.remove(i);
            table.insert(i, (key, value));
            proof {
                assert(table@ =~= before.update(i as int, (key, value)));
                assert forall|j: int| 0 <= j < table@.len() implies entries_of(before).update(i as int, (kv, vv))[j]
                    == (table@[j].0@, table@[j].1@) by {}
                lemma_entries_of_ext(table@, entries_of(before).update(i as int, (kv, vv)));
            }
        },
        None => {
            table.push((key, value));
            proof {
                assert forall|j: int| 0 <= j < table@.len() implies entries_of(before).push((kv, vv))[j]
                    == (table@[j].0@, table@[j].1@) by {
                    if j < before.len() {
                        assert(table@[j] == before[j]);
                    }
                }
                lemma_entries_of_ext(table@, entries_of(before).push((kv, vv)));
            }
        },
    }
}

#[verifier::rlimit(60)]
/// Deep-merges `over` into `base`: two tables merge key by key, anything
/// else (a table over a non-table too) replaces outright.
///
/// Every value put in place (inserted, or replacing another outright) is
/// attributed in `provenance`, under its key path (which starts with
/// `from_root`), to `origin`; attributions below a replaced value are
/// dropped with it.
pub fn merge_tracked(
    base: &mut ConfigValue,
    over: ConfigValue,
    origin: &Origin,
    from_root: &mut Vec<String>,
    provenance: &mut Provenance,
)
    ensures
        final(base)@ == merge(old(base)@, over@),
        final(provenance)@ == track(old(provenance)@, old(base)@, over@, views(old(from_root)@), origin@),
        final(from_root)@ == old(from_root)@,
    decreases over@,
{
    let base_is_table = match base {
        ConfigValue::Table(_) => true,
        _ => false,
    };
    let over_is_table = match &over {
        ConfigValue::Table(_) => true,
        _ => false,
    };
    if !(base_is_table && over_is_table) {
        if from_root.len() > 0 {
            record_provenance(from_root, origin, provenance);
        } else {
            provenance.clear_under(from_root);
        }
        *base = over;
        return;
    }
    let ghost over0 = over@;
    let ghost base0 = base@;
    let ghost root = views(from_root@);
    let ghost root_strings = from_root@;
    let ghost prov0 = provenance@;
    let mut taken = ConfigValue::Boolean(false);
    std::mem::swap(base, &mut taken);
    let mut table: Vec<(String, ConfigValue)> = match taken {
        ConfigValue::Table(t) => t,
        _ => Vec::new(),
    };
    let mut rest: Vec<(String, ConfigValue)> = match over {
        ConfigValue::Table(t) => t,
        _ => Vec::new(),
    };
    let ghost b0 = entries_of(table@);
    let ghost o0 = entries_of(rest@);
    proof {
        assert(base0 == Tree::Table(b0));
        assert(over0 == Tree::Table(o0));
        assert(o0.subrange(0, 0) =~= Seq::<(Seq<char>, Tree)>::empty());
        assert(o0.subrange(0, o0.len() as int) =~= o0);
        lemma_entries_of(rest@);
    }
    let ghost mut n: int = 0;
    #[verifier::loop_isolation(false)]
    while rest.len() > 0
        invariant
            0 <= n <= o0.len(),
            over0 == Tree::Table(o0),
            entries_of(table@) == merge_entries(b0, o0.subrange(0, n)),
            entries_of(rest@) == o0.subrange(n, o0.len() as int),
            from_root@ == root_strings,
            views(from_root@) == root,
            provenance@ == track_entries(prov0, b0, o0.subrange(0, n), root, origin@),
        decreases rest.len(),
    {
        let ghost r_before = rest@;
        proof {
            lemma_entries_of(r_before);
            assert(entries_of(r_before)[0] == o0[n]);
        }
        let (key, value) = rest.remove(0);
        let ghost acc = merge_entries(b0, o0.subrange(0, n));
        let ghost next = o0.subrange(0, n + 1);
        proof {
            assert(rest@ =~= r_before.subrange(1, r_before.len() as int));
            assert forall|j: int| 0 <= j < rest@.len() implies o0.subrange(n + 1, o0.len() as int)[j] == (
                rest@[j].0@,
                rest@[j].1@,
            ) by {
                assert(rest@[j] == r_before[j + 1]);
                assert(entries_of(r_before)[j + 1] == o0[n + 1 + j]);
            }
            lemma_entries_of_ext(rest@, o0.subrange(n + 1, o0.len() as int));
            assert(o0[n] == (key@, value@));
            assert(next.subrange(0, n) =~= o0.subrange(0, n));
            assert(next[n] == o0[n]);
            assert(decreases_to!(over0 => over0->Table_0));
            assert(decreases_to!(o0 => o0[n]));
        }
        let found = find_index(&table, &key);
        proof {
            lemma_entries_of(table@);
            lemma_find_key(entries_of(table@), key@);
        }
        match found {
            Some(i) => {
                let ghost t_before = table@;
                proof {
                    assert(entries_of(table@) == acc);
                    assert(entries_of(table@).len() == table@.len());
                    assert(find_key(acc, key@) == Some(i as int));
                }
                let (bkey, mut bval) = table.remove(i);
                let ghost bval_old = bval@;
                proof {
                    assert(find_key(acc, key@) == Some(i as int));
                    assert(acc[i as int].0 == key@);
                    assert(entries_of(t_before)[i as int] == (t_before[i as int].0@, t_before[i as int].1@));
                    assert(bval_old == acc[i as int].1);
                    assert(bkey@ == o0[n].0);
                }
                from_root.push(key);
                proof {
                    assert(views(from_root@) =~= root.push(o0[n].0));
                    assert(decreases_to!(over0 => over0->Table_0));
                    assert(over0->Table_0 == o0);
                    assert(decreases_to!(o0 => o0[n]));
                    assert(decreases_to!(o0[n] => o0[n].1));
                    assert(o0[n].1 == value@);
                    assert(decreases_to!(over0 => value@));
                }
                merge_tracked(&mut bval, value, origin, from_root, provenance);
                let _ = from_root.pop();
                proof {
                    assert(from_root@ =~= root_strings);
                }
                table.insert(i, (bkey, bval));
                proof {
                    assert(table@ =~= t_before.update(i as int, (bkey, bval)));
                    assert forall|j: int| 0 <= j < table@.len() implies acc.update(
                        i as int,
                        (o0[n].0, merge(acc[i as int].1, o0[n].1)),
                    )[j] == (table@[j].0@, table@[j].1@) by {
                        if j != i {
                            assert(entries_of(t_before)[j] == (t_before[j].0@, t_before[j].1@));
                        }
                    }
                    lemma_entries_of_ext(
                        table@,
                        acc.update(i as int, (o0[n].0, merge(acc[i as int].1, o0[n].1))),
                    );
                }
            },
            None => {
                from_root.push(key.clone());
                record_provenance(from_root, origin, provenance);
                let _ = from_root.pop();
                proof {
                    assert(views(from_root@.push(key)) =~= root.push(o0[n].0));
                    assert(from_root@ =~= root_strings);
                }
                let ghost t_before = table@;
                table.push((key, value));
                proof {
                    lemma_entries_of_ext(table@, acc.push((o0[n].0, o0[n].1)));
                }
            },
        }
        proof {
            n = n + 1;
        }
    }
    proof {
        assert(o0.subrange(0, n) =~= o0);
    }
    *base = ConfigValue::Table(table);
}

} // verus!
