//! Which layer supplied each merged value, and the deep merge that records
//! it.
use vstd::prelude::*;
use crate::text::{views, same_text, decimal, index_text};

verus! {

/// Where a merged value came from.
#[derive(Debug, PartialEq, Eq)]
pub enum Origin {
    /// A file layer, identified by its path.
    File(String),
    /// An environment layer, identified by the full variable name.
    Env { var: String },
    /// The in-process overrides layer.
    Overrides,
}

/// The model of an [`Origin`].
pub enum OriginView {
    File(Seq<char>),
    Env(Seq<char>),
    Overrides,
}

impl View for Origin {
    type V = OriginView;

    open spec fn view(&self) -> OriginView {
        match self {
            Origin::File(p) => OriginView::File(p@),
            Origin::Env { var } => OriginView::Env(var@),
            Origin::Overrides => OriginView::Overrides,
        }
    }
}

/// The location an origin is reported as: the file path, `<env:VARIABLE>`,
/// or `<overrides>`.
pub open spec fn origin_path(o: OriginView) -> Seq<char> {
    match o {
        OriginView::File(p) => p,
        OriginView::Env(var) => "<env:"@ + var + ">"@,
        OriginView::Overrides => "<overrides>"@,
    }
}

impl Origin {
    /// A copy of this origin.
    pub fn copy(&self) -> (r: Origin)
        ensures
            r@ == self@,
    {
        match self {
            Origin::File(p) => Origin::File(p.clone()),
            Origin::Env { var } => Origin::Env { var: var.clone() },
            Origin::Overrides => Origin::Overrides,
        }
    }

    /// The location rendered into a parse error for a value from this
    /// origin.
    pub fn error_path(&self) -> (r: String)
        ensures
            r@ == origin_path(self@),
    {
        match self {
            Origin::File(p) => p.clone(),
            Origin::Env { var } => {
                let mut s = String::from_str("<env:");
                s.append(var.as_str());
                s.append(">");
                s
            },
            Origin::Overrides => String::from_str("<overrides>"),
        }
    }
}

/// `p` lies at or below `q`: `q` is a prefix of `p`.
pub open spec fn extends(p: Seq<Seq<char>>, q: Seq<Seq<char>>) -> bool {
    q.len() <= p.len() && p.subrange(0, q.len() as int) == q
}

/// `p` lies strictly below `q`.
pub open spec fn strictly_under(p: Seq<Seq<char>>, q: Seq<Seq<char>>) -> bool {
    q.len() < p.len() && p.subrange(0, q.len() as int) == q
}

/// `m` without the attributions strictly below `q`.
pub open spec fn clear_under(m: Map<Seq<Seq<char>>, OriginView>, q: Seq<Seq<char>>) -> Map<
    Seq<Seq<char>>,
    OriginView,
> {
    Map::new(|p: Seq<Seq<char>>| m.contains_key(p) && !strictly_under(p, q), |p: Seq<Seq<char>>| m[p])
}

/// `m` after the value at `q` is written by `o`: whatever was attributed
/// below `q` belonged to the value that was replaced, so it goes.
pub open spec fn record(m: Map<Seq<Seq<char>>, OriginView>, q: Seq<Seq<char>>, o: OriginView) -> Map<
    Seq<Seq<char>>,
    OriginView,
> {
    clear_under(m, q).insert(q, o)
}

/// The map that a log of assignments leaves behind: later entries win.
pub open spec fn log_map(s: Seq<(Vec<String>, Origin)>) -> Map<Seq<Seq<char>>, OriginView>
    decreases s.len(),
{
    if s.len() == 0 {
        Map::empty()
    } else {
        log_map(s.subrange(0, s.len() - 1)).insert(views(s[s.len() - 1].0@), s[s.len() - 1].1@)
    }
}

/// Key paths mapped to the layer that last wrote the value there.
pub struct Provenance {
    log: Vec<(Vec<String>, Origin)>,
}

impl View for Provenance {
    type V = Map<Seq<Seq<char>>, OriginView>;

    closed spec fn view(&self) -> Map<Seq<Seq<char>>, OriginView> {
        log_map(self.log@)
    }
}

proof fn lemma_log_map_push(s: Seq<(Vec<String>, Origin)>, x: (Vec<String>, Origin))
    ensures
        log_map(s.push(x)) == log_map(s).insert(views(x.0@), x.1@),
{
    assert(s.push(x).subrange(0, s.len() as int) =~= s);
}

proof fn lemma_log_map_last(s: Seq<(Vec<String>, Origin)>, k: Seq<Seq<char>>, i: int)
    requires
        0 <= i < s.len(),
        views(s[i].0@) == k,
        forall|j: int| i < j < s.len() ==> views(s[j].0@) != k,
    ensures
        log_map(s).contains_key(k),
        log_map(s)[k] == s[i].1@,
    decreases s.len(),
{
    if i < s.len() - 1 {
        let p = s.subrange(0, s.len() - 1);
        assert forall|j: int| i < j < p.len() implies views(p[j].0@) != k by {
            assert(p[j] == s[j]);
        }
        lemma_log_map_last(p, k, i);
    }
}

proof fn lemma_log_map_absent(s: Seq<(Vec<String>, Origin)>, k: Seq<Seq<char>>)
    requires
        forall|j: int| 0 <= j < s.len() ==> views(s[j].0@) != k,
    ensures
        !log_map(s).contains_key(k),
    decreases s.len(),
{
    if s.len() > 0 {
        let p = s.subrange(0, s.len() - 1);
        assert forall|j: int| 0 <= j < p.len() implies views(p[j].0@) != k by {
            assert(p[j] == s[j]);
        }
        lemma_log_map_absent(p, k);
    }
}

/// Whether two key paths hold the same segments.
pub fn same_path(a: &Vec<String>, b: &Vec<String>) -> (r: bool)
    ensures
        r == (views(a@) == views(b@)),
{
    if a.len() != b.len() {
        proof {
            assert(views(a@).len() != views(b@).len());
        }
        return false;
    }
    let n = a.len();
    let mut i: usize = 0;
    while i < n
        invariant
            n == a@.len(),
            n == b@.len(),
            0 <= i <= n,
            forall|j: int| 0 <= j < i ==> a@[j]@ == b@[j]@,
        decreases n - i,
    {
        if !same_text(a[i].as_str(), b[i].as_str()) {
            proof {
                assert(views(a@)[i as int] != views(b@)[i as int]);
            }
            return false;
        }
        i = i + 1;
    }
    proof {
        assert(views(a@) =~= views(b@));
    }
    true
}

/// Whether `p` lies strictly below `q`.
pub fn lies_under(p: &Vec<String>, q: &Vec<String>) -> (r: bool)
    ensures
        r == strictly_under(views(p@), views(q@)),
{
    let n = q.len();
    if p.len() <= n {
        return false;
    }
    let mut i: usize = 0;
    while i < n
        invariant
            n == q@.len(),
            n < p@.len(),
            0 <= i <= n,
            forall|j: int| 0 <= j < i ==> p@[j]@ == q@[j]@,
        decreases n - i,
    {
        if !same_text(p[i].as_str(), q[i].as_str()) {
            proof {
                assert(views(p@).subrange(0, n as int)[i as int] != views(q@)[i as int]);
            }
            return false;
        }
        i = i + 1;
    }
    proof {
        assert(views(p@).subrange(0, n as int) =~= views(q@));
    }
    true
}

/// A copy of a key path.
pub fn copy_path(p: &Vec<String>) -> (r: Vec<String>)
    ensures
        views(r@) == views(p@),
{
    let mut r: Vec<String> = Vec::new();
    let n = p.len();
    let mut i: usize = 0;
    while i < n
        invariant
            n == p@.len(),
            0 <= i <= n,
            r@.len() == i,
            forall|j: int| 0 <= j < i ==> r@[j]@ == p@[j]@,
        decreases n - i,
    {
        r.push(p[i].clone());
        i = i + 1;
    }
    proof {
        assert(views(r@) =~= views(p@));
    }
    r
}

/// The segments of a dotted key: the text between consecutive dots.
pub open spec fn split_dots(s: Seq<char>) -> Seq<Seq<char>>
    decreases s.len(),
{
    if s.len() == 0 {
        seq![Seq::empty()]
    } else {
        let p = split_dots(s.subrange(0, s.len() - 1));
        let c = s[s.len() - 1];
        if c == '.' {
            p.push(Seq::empty())
        } else {
            p.update(p.len() - 1, p[p.len() - 1].push(c))
        }
    }
}

proof fn lemma_split_dots_len(s: Seq<char>)
    ensures
        split_dots(s).len() >= 1,
    decreases s.len(),
{
    if s.len() > 0 {
        lemma_split_dots_len(s.subrange(0, s.len() - 1));
    }
}

/// The key path that the dotted key `key` names.
pub fn split_key(key: &str) -> (r: Vec<String>)
    ensures
        views(r@) == split_dots(key@),
{
    let n = key.unicode_len();
    let mut done: Vec<String> = Vec::new();
    let mut cur = String::new();
    let mut i: usize = 0;
    proof {
        assert(key@.subrange(0, 0) =~= Seq::<char>::empty());
        assert(views(done@).push(cur@) =~= seq![Seq::<char>::empty()]);
    }
    while i < n
        invariant
            n == key@.len(),
            0 <= i <= n,
            views(done@).push(cur@) == split_dots(key@.subrange(0, i as int)),
        decreases n - i,
    {
        let ghost before = key@.subrange(0, i as int);
        let ghost next = key@.subrange(0, i + 1);
        proof {
            assert(next.subrange(0, i as int) =~= before);
            lemma_split_dots_len(before);
        }
        let c = key.get_char(i);
        let ghost d0 = views(done@);
        let ghost c0 = cur@;
        if c == '.' {
            done.push(cur);
            cur = String::new();
            proof {
                assert(views(done@) =~= d0.push(c0));
                assert(views(done@).push(cur@) =~= split_dots(before).push(Seq::empty()));
            }
        } else {
            let piece = key.substring_char(i, i + 1);
            cur.append(piece);
            proof {
                assert(piece@ =~= seq![c]);
                assert(cur@ =~= c0.push(c));
                assert(views(done@).push(cur@) =~= d0.push(c0).update(d0.len() as int, c0.push(c)));
            }
        }
        i = i + 1;
    }
    proof {
        assert(key@.subrange(0, n as int) =~= key@);
    }
    let ghost d0 = views(done@);
    let ghost c0 = cur@;
    done.push(cur);
    proof {
        assert(views(done@) =~= d0.push(c0));
    }
    done
}

impl Provenance {
    /// No attributions yet.
    pub fn new() -> (r: Provenance)
        ensures
            r@ == Map::<Seq<Seq<char>>, OriginView>::empty(),
    {
        Provenance { log: Vec::new() }
    }

    /// Attributes the value at `path` to `origin`, replacing any earlier
    /// attribution of that path.
    pub fn insert(&mut self, path: Vec<String>, origin: Origin)
        ensures
            final(self)@ == old(self)@.insert(views(path@), origin@),
    {
        let ghost before = self.log@;
        self.log.push((path, origin));
        proof {
            lemma_log_map_push(before, self.log@.last());
            assert(self.log@ =~= before.push(self.log@.last()));
        }
    }

    /// Drops every attribution strictly below `q`.
    pub fn clear_under(&mut self, q: &Vec<String>)
        ensures
            final(self)@ == clear_under(old(self)@, views(q@)),
    {
        let ghost qv = views(q@);
        let mut kept: Vec<(Vec<String>, Origin)> = Vec::new();
        let n = self.log.len();
        let mut i: usize = 0;
        proof {
            assert(self.log@.subrange(0, 0) =~= Seq::<(Vec<String>, Origin)>::empty());
            assert(clear_under(Map::empty(), qv) =~= Map::<Seq<Seq<char>>, OriginView>::empty());
        }
        while i < n
            invariant
                n == self.log@.len(),
                0 <= i <= n,
                qv == views(q@),
                log_map(kept@) == clear_under(log_map(self.log@.subrange(0, i as int)), qv),
            decreases n - i,
        {
            let ghost m = log_map(self.log@.subrange(0, i as int));
            let ghost e = self.log@[i as int];
            proof {
                assert(self.log@.subrange(0, i + 1).subrange(0, i as int) =~= self.log@.subrange(0, i as int));
                assert(log_map(self.log@.subrange(0, i + 1)) == m.insert(views(e.0@), e.1@));
            }
            if !lies_under(&self.log[i].0, q) {
                let path = copy_path(&self.log[i].0);
                let origin = self.log[i].1.copy();
                let ghost k0 = kept@;
                kept.push((path, origin));
                proof {
                    lemma_log_map_push(k0, (path, origin));
                    assert(kept@ =~= k0.push((path, origin)));
                    assert(clear_under(m.insert(views(e.0@), e.1@), qv) =~= clear_under(m, qv).insert(
                        views(e.0@),
                        e.1@,
                    ));
                }
            } else {
                proof {
                    assert(clear_under(m.insert(views(e.0@), e.1@), qv) =~= clear_under(m, qv));
                }
            }
            i = i + 1;
        }
        proof {
            assert(self.log@.subrange(0, n as int) =~= self.log@);
        }
        self.log = kept;
    }

    /// The origin attributed to the value at `path`, if any.
    pub fn get_path(&self, path: &Vec<String>) -> (r: Option<&Origin>)
        ensures
            match r {
                Some(o) => self@.contains_key(views(path@)) && self@[views(path@)] == o@,
                None => !self@.contains_key(views(path@)),
            },
    {
        let mut i = self.log.len();
        while i > 0
            invariant
                i <= self.log@.len(),
                forall|j: int| i <= j < self.log@.len() ==> views(self.log@[j].0@) != views(path@),
            decreases i,
        {
            if same_path(&self.log[i - 1].0, path) {
                proof {
                    lemma_log_map_last(self.log@, views(path@), i - 1);
                }
                return Some(&self.log[i - 1].1);
            }
            i = i - 1;
        }
        proof {
            lemma_log_map_absent(self.log@, views(path@));
        }
        None
    }

    /// The origin attributed to the value at the dotted key `key`, if any.
    pub fn get(&self, key: &String) -> (r: Option<&Origin>)
        ensures
            match r {
                Some(o) => self@.contains_key(split_dots(key@)) && self@[split_dots(key@)] == o@,
                None => !self@.contains_key(split_dots(key@)),
            },
    {
        let path = split_key(key.as_str());
        self.get_path(&path)
    }
}

/// Attributes the value at `path` to `origin`: the last writer wins,
/// because that writer's value is the one that survived, and whatever was
/// attributed below `path` went with the value it replaced.
pub fn record_provenance(path: &Vec<String>, origin: &Origin, provenance: &mut Provenance)
    ensures
        final(provenance)@ == record(old(provenance)@, views(path@), origin@),
{
    provenance.clear_under(path);
    provenance.insert(copy_path(path), origin.copy());
}

/// One step of the key path at which deserialization failed.
#[derive(Debug, PartialEq, Eq)]
pub enum PathSegment {
    /// A map key.
    Key { key: String },
    /// An enum variant.
    Variant { variant: String },
    /// A sequence index.
    Index { index: usize },
    /// A step that could not be described.
    Unknown,
}

/// How a path step reads in a dotted path.
pub open spec fn segment_text(s: PathSegment) -> Seq<char> {
    match s {
        PathSegment::Key { key } => key@,
        PathSegment::Variant { variant } => variant@,
        PathSegment::Index { index } => decimal(index as nat),
        PathSegment::Unknown => "?"@,
    }
}

pub open spec fn segment_texts(s: Seq<PathSegment>) -> Seq<Seq<char>> {
    s.map_values(|x: PathSegment| segment_text(x))
}

pub open spec fn option_view(o: Option<String>) -> Option<Seq<char>> {
    match o {
        Some(s) => Some(s@),
        None => None,
    }
}

/// The location blamed for a deserialization failure at `segs`: the origin
/// of the value at the failing path or the nearest path above it that has
/// one, else the most recently read file, else nothing.
pub open spec fn attribution(
    prov: Map<Seq<Seq<char>>, OriginView>,
    last_file: Option<Seq<char>>,
    segs: Seq<Seq<char>>,
) -> Seq<char>
    decreases segs.len(),
{
    if segs.len() == 0 {
        match last_file {
            Some(f) => f,
            None => Seq::empty(),
        }
    } else if prov.contains_key(segs) {
        origin_path(prov[segs])
    } else {
        attribution(prov, last_file, segs.subrange(0, segs.len() - 1))
    }
}

/// How `segment` reads in a dotted path.
pub fn segment_string(segment: &PathSegment) -> (r: String)
    ensures
        r@ == segment_text(*segment),
{
    match segment {
        PathSegment::Key { key } => key.clone(),
        PathSegment::Variant { variant } => variant.clone(),
        PathSegment::Index { index } => index_text(*index),
        PathSegment::Unknown => String::from_str("?"),
    }
}

/// The path attributed to a deserialization failure at `failing`: the
/// origin of the value at (or nearest above) the failing key path, falling
/// back to the most recently read file layer, or empty when no file layer
/// contributed.
pub fn attribute_error_path(
    provenance: &Provenance,
    last_file: &Option<String>,
    failing: &Vec<PathSegment>,
) -> (r: String)
    ensures
        r@ == attribution(provenance@, option_view(*last_file), segment_texts(failing@)),
{
    let ghost all = segment_texts(failing@);
    let mut prefix: Vec<String> = Vec::new();
    let n = failing.len();
    let mut i: usize = 0;
    while i < n
        invariant
            n == failing@.len(),
            0 <= i <= n,
            all == segment_texts(failing@),
            prefix@.len() == i,
            views(prefix@) == all.subrange(0, i as int),
        decreases n - i,
    {
        let text = segment_string(&failing[i]);
        let ghost before = prefix@;
        prefix.push(text);
        proof {
            assert(all[i as int] == text@);
            assert(views(prefix@) =~= all.subrange(0, i + 1)) by {
                assert(prefix@ == before.push(text));
                assert(views(before) == all.subrange(0, i as int));
                assert forall|j: int| 0 <= j < i implies views(prefix@)[j] == all[j] by {
                    assert(prefix@[j] == before[j]);
                    assert(views(before)[j] == all[j]);
                }
            }
        }
        i = i + 1;
    }
    proof {
        assert(all.subrange(0, n as int) =~= all);
    }
    while prefix.len() > 0
        invariant
            all == segment_texts(failing@),
            attribution(provenance@, option_view(*last_file), all) == attribution(
                provenance@,
                option_view(*last_file),
                views(prefix@),
            ),
        decreases prefix.len(),
    {
        match provenance.get_path(&prefix) {
            Some(origin) => {
                proof {
                    assert(views(prefix@).len() > 0);
                    assert(provenance@.contains_key(views(prefix@)));
                    assert(provenance@[views(prefix@)] == origin@);
                    assert(attribution(provenance@, option_view(*last_file), views(prefix@)) == origin_path(origin@));
                }
                return origin.error_path();
            },
            None => {},
        }
        let ghost before = prefix@;
        let _ = prefix.pop();
        proof {
            assert(views(prefix@) =~= views(before).subrange(0, before.len() - 1));
        }
    }
    match last_file {
        Some(f) => f.clone(),
        None => String::new(),
    }
}

} // verus!
