//! The typed builder and the layered load pipeline.
use vstd::prelude::*;
use core::marker::PhantomData;
use crate::env::{EnvEntry, collect, collect_env, bindings_view, binding_view};
use crate::error::{ConfigError, ConfigErrorView};
use crate::formats::{read_layer, read_view, read_layer_value, layer_outcome_view};
use crate::layer::ConfigLayer;
use crate::merge::{track, merge_tracked, agree_at, lemma_track_descent};
use crate::provenance::{OriginView, Origin, Provenance, PathSegment, attribution, attribute_error_path, option_view, segment_texts};
use crate::keys::{sort_unique, strictly_sorted};
use crate::text::views;
use crate::value::{ConfigValue, Tree, merge, merge_entries, entries_of, lemma_entries_of_ext, distinct_keys, lookup, find_key, lemma_find_key, lemma_find_key_none, keys_unique, supplied_depth};
use crate::env::{upsert, infer_tree};
use crate::provenance::origin_path;

verus! {

/// Builder state: no layers added yet. Loading is not available in this
/// state.
#[derive(Debug, Clone, Copy)]
pub struct Empty;

/// Builder state: at least one layer has been added, so loading is
/// available.
#[derive(Debug, Clone, Copy)]
pub struct Ready;

/// `PhantomData`'s `clone`: the marker holds no data, so the copy is the
/// marker itself.
pub assume_specification<T: core::marker::PointeeSized>[<PhantomData<T> as Clone>::clone](p: &PhantomData<T>) -> (r: PhantomData<T>)
    ensures
        r == PhantomData::<T>,
;

/// Builder for layered, typed configuration.
///
/// [`ConfigBuilder::new`] gives a `ConfigBuilder<Empty>`, every
/// [`layer`](Self::layer) call a `ConfigBuilder<Ready>`, and only the
/// ready state merges. Layers apply in the order added; later layers win
/// on colliding keys, with tables merging key by key.
#[derive(Debug, Clone)]
pub struct ConfigBuilder<S> {
    layers: Vec<ConfigLayer>,
    state: PhantomData<S>,
}

impl<S> ConfigBuilder<S> {
    /// The layers added so far, in order.
    pub closed spec fn layer_list(&self) -> Seq<ConfigLayer> {
        self.layers@
    }

    /// The layers added so far, in order.
    pub fn layers(&self) -> (r: &Vec<ConfigLayer>)
        ensures
            r@ == self.layer_list(),
    {
        &self.layers
    }

    /// Adds a layer and moves the builder to the [`Ready`] state.
    pub fn layer(self, layer: ConfigLayer) -> (r: ConfigBuilder<Ready>)
        ensures
            r.layer_list() == self.layer_list().push(layer),
    {
        let mut layers = self.layers;
        layers.push(layer);
        ConfigBuilder { layers, state: PhantomData }
    }
}

impl ConfigBuilder<Empty> {
    /// A builder with no layers.
    pub fn new() -> (r: ConfigBuilder<Empty>)
        ensures
            r.layer_list() == Seq::<ConfigLayer>::empty(),
    {
        ConfigBuilder { layers: Vec::new(), state: PhantomData }
    }
}

impl Default for ConfigBuilder<Empty> {
    fn default() -> (r: ConfigBuilder<Empty>)
        ensures
            r.layer_list() == Seq::<ConfigLayer>::empty(),
    {
        ConfigBuilder::new()
    }
}

/// What the caller fetched for one layer: the file's text (or the message
/// of the OS error reading it), the process environment, or nothing for
/// an override layer.
pub enum LayerInput {
    File(Result<String, String>),
    Env(Vec<EnvEntry>),
    Overrides,
}

/// `input` is the kind of input that `layer` reads.
pub open spec fn input_fits(layer: ConfigLayer, input: LayerInput) -> bool {
    match layer {
        ConfigLayer::File(..) => input is File,
        ConfigLayer::EnvPrefix(_) => input is Env,
        ConfigLayer::Overrides(_) => input is Overrides,
    }
}

/// The fully merged configuration plus per-value provenance.
pub struct Merged {
    /// The merged value, a table.
    pub value: ConfigValue,
    /// Key path of every value a layer put in place, mapped to the layer
    /// that last wrote it.
    pub provenance: Provenance,
    /// The most recently read file layer, if any.
    pub last_file: Option<String>,
}

/// The model of a [`Merged`].
pub struct MergedView {
    pub value: Tree,
    pub provenance: Map<Seq<Seq<char>>, OriginView>,
    pub last_file: Option<Seq<char>>,
}

impl View for Merged {
    type V = MergedView;

    open spec fn view(&self) -> MergedView {
        MergedView {
            value: self.value@,
            provenance: self.provenance@,
            last_file: match self.last_file {
                Some(f) => Some(f@),
                None => None,
            },
        }
    }
}

/// Nothing merged yet: an empty table, no attributions, no file read.
pub open spec fn start_state() -> MergedView {
    MergedView { value: Tree::Table(Seq::empty()), provenance: Map::empty(), last_file: None }
}

/// `st` after `over` merges in from `origin`: every value put in place is
/// attributed to `origin`.
pub open spec fn absorb(st: MergedView, over: Tree, origin: OriginView) -> MergedView {
    MergedView {
        value: merge(st.value, over),
        provenance: track(st.provenance, st.value, over, Seq::empty(), origin),
        last_file: st.last_file,
    }
}

/// `st` after the bindings of an environment layer merge in, one
/// top-level key at a time, each attributed to its variable.
pub open spec fn absorb_env(st: MergedView, bindings: Seq<(Seq<char>, (Seq<char>, Tree))>) -> MergedView
    decreases bindings.len(),
{
    if bindings.len() == 0 {
        st
    } else {
        let b = bindings[bindings.len() - 1];
        absorb(
            absorb_env(st, bindings.subrange(0, bindings.len() - 1)),
            Tree::Table(seq![(b.0, b.1.1)]),
            OriginView::Env(b.1.0),
        )
    }
}

/// `st` after one layer, given what was fetched for it.
pub open spec fn apply_layer(st: MergedView, layer: ConfigLayer, input: LayerInput) -> Result<
    MergedView,
    ConfigErrorView,
> {
    match layer {
        ConfigLayer::File(path, _) => match input {
            LayerInput::File(read) => match read_layer(path@, read_view(read)) {
                Err(e) => Err(e),
                Ok(t) => {
                    let next = absorb(st, t, OriginView::File(path@));
                    Ok(MergedView { last_file: Some(path@), ..next })
                },
            },
            _ => Ok(st),
        },
        ConfigLayer::EnvPrefix(prefix) => match input {
            LayerInput::Env(entries) => match collect_env(prefix@, entries@) {
                Err(e) => Err(e),
                Ok(bindings) => Ok(absorb_env(st, bindings)),
            },
            _ => Ok(st),
        },
        ConfigLayer::Overrides(table) => Ok(
            absorb(st, Tree::Table(entries_of(table@)), OriginView::Overrides),
        ),
    }
}

/// The merge of the first `n` layers, stopping at the first error.
pub open spec fn apply_layers(layers: Seq<ConfigLayer>, inputs: Seq<LayerInput>, n: nat) -> Result<
    MergedView,
    ConfigErrorView,
>
    decreases n,
{
    if n == 0 {
        Ok(start_state())
    } else {
        match apply_layers(layers, inputs, (n - 1) as nat) {
            Err(e) => Err(e),
            Ok(st) => apply_layer(st, layers[n - 1], inputs[n - 1]),
        }
    }
}

pub open spec fn merged_outcome_view(r: Result<Merged, ConfigError>) -> Result<MergedView, ConfigErrorView> {
    match r {
        Ok(m) => Ok(m@),
        Err(e) => Err(e@),
    }
}

proof fn lemma_apply_layers_err(layers: Seq<ConfigLayer>, inputs: Seq<LayerInput>, k: nat, n: nat)
    requires
        k <= n,
        apply_layers(layers, inputs, k) is Err,
    ensures
        apply_layers(layers, inputs, n) == apply_layers(layers, inputs, k),
    decreases n - k,
{
    if k < n {
        lemma_apply_layers_err(layers, inputs, k, (n - 1) as nat);
    }
}

/// Merges `over` into the accumulator from `origin`, at the root.
fn absorb_value(acc: &mut Merged, over: ConfigValue, origin: &Origin)
    ensures
        final(acc)@ == absorb(old(acc)@, over@, origin@),
{
    let mut from_root: Vec<String> = Vec::new();
    proof {
        assert(views(from_root@) =~= Seq::<Seq<char>>::empty());
    }
    merge_tracked(&mut acc.value, over, origin, &mut from_root, &mut acc.provenance);
}

impl Merged {
    /// Nothing merged yet: an empty table, no attributions, no file read.
    pub fn start() -> (r: Merged)
        ensures
            r@ == start_state(),
    {
        let r = Merged { value: ConfigValue::Table(Vec::new()), provenance: Provenance::new(), last_file: None };
        proof {
            lemma_entries_of_ext(Seq::empty(), Seq::empty());
        }
        r
    }
}

/// Merges one layer into `acc`, given what was fetched for it: a file's
/// text is parsed by extension and merged, attributed to the file; an
/// environment layer's bindings merge one top-level key at a time, each
/// attributed to its variable; an override table merges as it is. On an
/// error `acc` is left as it was.
pub fn absorb_layer(acc: &mut Merged, layer: ConfigLayer, input: LayerInput) -> (r: Result<(), ConfigError>)
    requires
        input_fits(layer, input),
    ensures
        match r {
            Ok(_) => apply_layer(old(acc)@, layer, input) == Ok::<_, ConfigErrorView>(final(acc)@),
            Err(e) => apply_layer(old(acc)@, layer, input) == Err::<MergedView, _>(e@) && final(acc)@ == old(acc)@,
        },
        r is Ok && layer is File ==> keys_unique(layer_value(layer, input)),
{
    let ghost st = acc@;
    let ghost layer0 = layer;
    let ghost input0 = input;
    match layer {
        ConfigLayer::File(path, _) => {
            let read = match input {
                LayerInput::File(read) => read,
                _ => Err(String::new()),
            };
            proof {
                assert(input0 matches LayerInput::File(x) && x == read);
            }
            match read_layer_value(&path, &read) {
                Err(e) => Err(e),
                Ok(value) => {
                    let origin = Origin::File(path.clone());
                    absorb_value(acc, value, &origin);
                    acc.last_file = Some(path);
                    Ok(())
                },
            }
        },
        ConfigLayer::EnvPrefix(prefix) => {
            let entries = match input {
                LayerInput::Env(entries) => entries,
                _ => Vec::new(),
            };
            proof {
                assert(input0 matches LayerInput::Env(x) && x == entries);
            }
            match collect(prefix.as_str(), &entries) {
                Err(e) => Err(e),
                Ok(bindings) => {
                    let ghost bs = bindings_view(bindings@);
                    let mut rest = bindings;
                    let ghost mut j: int = 0;
                    proof {
                        assert(bs.subrange(0, 0) =~= Seq::<(Seq<char>, (Seq<char>, Tree))>::empty());
                        assert(bindings_view(rest@) =~= bs.subrange(0, bs.len() as int));
                    }
                    while rest.len() > 0
                        invariant
                            0 <= j <= bs.len(),
                            bindings_view(rest@) == bs.subrange(j, bs.len() as int),
                            acc@ == absorb_env(st, bs.subrange(0, j)),
                        decreases rest.len(),
                    {
                        let ghost r_before = rest@;
                        let b = rest.remove(0);
                        proof {
                            assert(bindings_view(r_before).len() == r_before.len());
                            assert(bindings_view(r_before)[0] == binding_view(b));
                            assert(bindings_view(r_before)[0] == bs[j]);
                            assert(rest@ =~= r_before.subrange(1, r_before.len() as int));
                            assert forall|x: int| 0 <= x < rest@.len() implies bindings_view(rest@)[x]
                                == bs.subrange(j + 1, bs.len() as int)[x] by {
                                assert(rest@[x] == r_before[x + 1]);
                                assert(bindings_view(r_before)[x + 1] == bs[j + 1 + x]);
                            }
                            assert(bindings_view(rest@) =~= bs.subrange(j + 1, bs.len() as int));
                            assert(bs.subrange(0, j + 1).subrange(0, j) =~= bs.subrange(0, j));
                        }
                        let origin = Origin::Env { var: b.var };
                        let ghost key = b.key@;
                        let ghost tree = b.value@;
                        let wrapper = vec![(b.key, b.value)];
                        proof {
                            lemma_entries_of_ext(wrapper@, seq![(key, tree)]);
                        }
                        absorb_value(acc, ConfigValue::Table(wrapper), &origin);
                        proof {
                            j = j + 1;
                        }
                    }
                    proof {
                        assert(bs.subrange(0, j) =~= bs);
                    }
                    Ok(())
                },
            }
        },
        ConfigLayer::Overrides(table) => {
            absorb_value(acc, ConfigValue::Table(table), &Origin::Overrides);
            Ok(())
        },
    }
}

impl ConfigBuilder<Ready> {
    /// The layers, in the order added, for a caller that fetches and
    /// merges them one at a time with [`absorb_layer`].
    pub fn into_layers(self) -> (r: Vec<ConfigLayer>)
        ensures
            r@ == self.layer_list(),
    {
        self.layers
    }

    /// Walks the layers in order, merging each into the accumulator, given
    /// what was fetched for each layer (`inputs`, one per layer), and
    /// stops at the first layer that fails.
    ///
    /// Every value a layer puts in place is attributed to that layer, so a
    /// later deserialization failure can name the layer that supplied the
    /// offending value.
    pub fn merged(self, inputs: Vec<LayerInput>) -> (r: Result<Merged, ConfigError>)
        requires
            inputs@.len() == self.layer_list().len(),
            forall|i: int| 0 <= i < inputs@.len() ==> input_fits(self.layer_list()[i], #[trigger] inputs@[i]),
        ensures
            merged_outcome_view(r) == apply_layers(self.layer_list(), inputs@, inputs@.len() as nat),
            r is Ok ==> forall|i: int|
                0 <= i < inputs@.len() && (#[trigger] self.layer_list()[i]) is File ==> keys_unique(
                    layer_value(self.layer_list()[i], inputs@[i]),
                ),
    {
        let ghost all_layers = self.layers@;
        let ghost all_inputs = inputs@;
        let total = inputs.len();
        let mut layers = self.layers;
        let mut inputs = inputs;
        let mut acc = Merged::start();
        let mut k: usize = 0;
        #[verifier::loop_isolation(false)]
        while k < total
            invariant
                total == all_inputs.len(),
                all_layers.len() == total,
                0 <= k <= total,
                layers@ == all_layers.subrange(k as int, total as int),
                inputs@ == all_inputs.subrange(k as int, total as int),
                forall|i: int| 0 <= i < total ==> input_fits(all_layers[i], #[trigger] all_inputs[i]),
                apply_layers(all_layers, all_inputs, k as nat) == Ok::<_, ConfigErrorView>(acc@),
                forall|i: int|
                    0 <= i < k && (#[trigger] all_layers[i]) is File ==> keys_unique(layer_value(all_layers[i], all_inputs[i])),
            decreases total - k,
        {
            let layer = layers.remove(0);
            let input = inputs.remove(0);
            proof {
                assert(layer == all_layers[k as int]);
                assert(input == all_inputs[k as int]);
                assert(input_fits(layer, input));
            }
            let ghost st = acc@;
            match absorb_layer(&mut acc, layer, input) {
                Err(e) => {
                    proof {
                        assert(apply_layer(st, all_layers[k as int], all_inputs[k as int]) == Err::<MergedView, _>(e@));
                        assert(apply_layers(all_layers, all_inputs, (k + 1) as nat) == Err::<MergedView, _>(e@));
                        lemma_apply_layers_err(all_layers, all_inputs, (k + 1) as nat, total as nat);
                    }
                    return Err(e);
                },
                Ok(_) => {},
            }
            k = k + 1;
        }
        Ok(acc)
    }
}


/// Why the merged configuration did not deserialize: the key path of the
/// failing value and the deserializer's message.
pub struct DeserializeFailure {
    pub path: Vec<PathSegment>,
    pub message: String,
}

/// The parse error for a deserialization failure, attributed to the
/// layer that supplied the offending value.
pub open spec fn failure_error(
    prov: Map<Seq<Seq<char>>, OriginView>,
    last_file: Option<Seq<char>>,
    f: DeserializeFailure,
) -> ConfigErrorView {
    ConfigErrorView::Parse {
        path: attribution(prov, last_file, segment_texts(f.path@)),
        message: f.message@,
    }
}

fn failure_to_error(provenance: &Provenance, last_file: &Option<String>, failure: DeserializeFailure) -> (r: ConfigError)
    ensures
        r@ == failure_error(provenance@, option_view(*last_file), failure),
{
    let path = attribute_error_path(provenance, last_file, &failure.path);
    ConfigError::Parse { path, message: failure.message }
}

/// What a load gives, by what deserializing the merged value gave: the
/// value, or the parse error that blames the layer that supplied the
/// offending value.
pub open spec fn load_result<T>(
    prov: Map<Seq<Seq<char>>, OriginView>,
    last_file: Option<Seq<char>>,
    outcome: Result<T, DeserializeFailure>,
) -> Result<T, ConfigErrorView> {
    match outcome {
        Ok(t) => Ok(t),
        Err(f) => Err(failure_error(prov, last_file, f)),
    }
}

/// A load outcome with its error taken by its model.
pub open spec fn result_view<T>(r: Result<T, ConfigError>) -> Result<T, ConfigErrorView> {
    match r {
        Ok(t) => Ok(t),
        Err(e) => Err(e@),
    }
}

/// The outcome of a load, given what deserializing the merged value into
/// the target type gave: the value, or a [`ConfigError::Parse`] that names
/// the origin of the offending value (the file that supplied it,
/// `<env:VARIABLE>`, or `<overrides>`), falling back to the last file
/// layer read, or an empty path.
pub fn finish_load<T>(
    provenance: &Provenance,
    last_file: &Option<String>,
    outcome: Result<T, DeserializeFailure>,
) -> (r: Result<T, ConfigError>)
    ensures
        result_view(r) == load_result(provenance@, option_view(*last_file), outcome),
{
    match outcome {
        Ok(t) => Ok(t),
        Err(failure) => Err(failure_to_error(provenance, last_file, failure)),
    }
}

/// The top-level key at which the deserializer ignored a value, if the
/// ignored value sits directly under the root; `path` runs from the root,
/// with a wrapper step (an option or a newtype) as [`PathSegment::Unknown`].
pub open spec fn top_level_key(path: Seq<PathSegment>) -> Option<Seq<char>> {
    if path.len() == 1 && path[0] is Key {
        Some(path[0]->key@)
    } else {
        None
    }
}

/// The top-level keys among the ignored paths, in order.
pub open spec fn top_level_keys(paths: Seq<Vec<PathSegment>>) -> Seq<Seq<char>>
    decreases paths.len(),
{
    if paths.len() == 0 {
        Seq::empty()
    } else {
        let p = top_level_keys(paths.subrange(0, paths.len() - 1));
        match top_level_key(paths[paths.len() - 1]@) {
            Some(k) => p.push(k),
            None => p,
        }
    }
}

/// The keys that a strict load reports as unknown, given every path at
/// which the deserializer ignored a value: only the top-level ones, since
/// nested tables may carry extra keys.
pub fn unknown_top_level_keys(ignored: &Vec<Vec<PathSegment>>) -> (r: Vec<String>)
    ensures
        views(r@) == top_level_keys(ignored@),
{
    let mut r: Vec<String> = Vec::new();
    let n = ignored.len();
    let mut i: usize = 0;
    proof {
        assert(ignored@.subrange(0, 0) =~= Seq::<Vec<PathSegment>>::empty());
        assert(views(r@) =~= Seq::<Seq<char>>::empty());
    }
    while i < n
        invariant
            n == ignored@.len(),
            0 <= i <= n,
            views(r@) == top_level_keys(ignored@.subrange(0, i as int)),
        decreases n - i,
    {
        proof {
            assert(ignored@.subrange(0, i + 1).subrange(0, i as int) =~= ignored@.subrange(0, i as int));
        }
        let path = &ignored[i];
        if path.len() == 1 {
            match &path[0] {
                PathSegment::Key { key } => {
                    let ghost before = r@;
                    r.push(key.clone());
                    proof {
                        assert(views(r@) =~= views(before).push(key@));
                    }
                },
                _ => {},
            }
        }
        i = i + 1;
    }
    proof {
        assert(ignored@.subrange(0, n as int) =~= ignored@);
    }
    r
}

/// `keys` lists each key of `unknown` once, in lexicographic order.
pub open spec fn sorted_key_set(keys: Seq<Seq<char>>, unknown: Seq<Seq<char>>) -> bool {
    &&& strictly_sorted(keys)
    &&& forall|s: Seq<char>| keys.contains(s) <==> unknown.contains(s)
}

/// The outcome of a strict load, given what deserializing the merged
/// value gave and the top-level keys that no field consumed: a
/// deserialization failure is reported as by [`finish_load`]; otherwise
/// any unconsumed key is a [`ConfigError::UnknownFields`] listing them
/// sorted and deduplicated.
///
/// Over the same merge and the same deserialization, a strict load agrees
/// with a plain one: when it succeeds, the plain load gives the same
/// value; when the plain load fails, the strict one fails with the same
/// error; and when it reports unknown keys, the plain load succeeds.
pub fn finish_load_strict<T>(
    provenance: &Provenance,
    last_file: &Option<String>,
    outcome: Result<T, DeserializeFailure>,
    unknown: Vec<String>,
) -> (r: Result<T, ConfigError>)
    ensures
        match outcome {
            Err(f) => r matches Err(e) && e@ == failure_error(provenance@, option_view(*last_file), f),
            Ok(t) => if unknown@.len() == 0 {
                r == Ok::<T, ConfigError>(t)
            } else {
                r matches Err(ConfigError::UnknownFields { keys }) && sorted_key_set(views(keys@), views(unknown@))
            },
        },
        r is Ok ==> result_view(r) == load_result(provenance@, option_view(*last_file), outcome),
        load_result(provenance@, option_view(*last_file), outcome) is Err ==> result_view(r) == load_result(
            provenance@,
            option_view(*last_file),
            outcome,
        ),
        r matches Err(ConfigError::UnknownFields { .. }) ==> load_result(
            provenance@,
            option_view(*last_file),
            outcome,
        ) is Ok,
{
    match outcome {
        Err(failure) => Err(failure_to_error(provenance, last_file, failure)),
        Ok(t) => {
            if unknown.len() == 0 {
                Ok(t)
            } else {
                let keys = sort_unique(&unknown);
                Err(ConfigError::UnknownFields { keys })
            }
        },
    }
}


/// How deep `over` reaches along a prefix of `segs`: the same place, when
/// the prefix gets that far.
proof fn lemma_depth_prefix(base: Tree, over: Tree, segs: Seq<Seq<char>>, e: int)
    requires
        0 <= e <= segs.len(),
    ensures
        supplied_depth(base, over, segs.subrange(0, e)) == match supplied_depth(base, over, segs) {
            Some(d) => if d <= e {
                Some(d)
            } else {
                None
            },
            None => None,
        },
    decreases segs.len(),
{
    let pre = segs.subrange(0, e);
    match over {
        Tree::Table(ov) => match base {
            Tree::Table(b) => {
                if e > 0 {
                    assert(pre[0] == segs[0]);
                    let k = segs[0];
                    match lookup(ov, k) {
                        None => {},
                        Some(v) => match lookup(b, k) {
                            None => {},
                            Some(x) => {
                                let tail = segs.subrange(1, segs.len() as int);
                                assert(pre.subrange(1, pre.len() as int) =~= tail.subrange(0, e - 1));
                                lemma_depth_prefix(x, v, tail, e - 1);
                            },
                        },
                    }
                }
            },
            _ => {},
        },
        _ => {},
    }
}

proof fn lemma_depth_bound(base: Tree, over: Tree, segs: Seq<Seq<char>>)
    ensures
        supplied_depth(base, over, segs) matches Some(d) ==> d <= segs.len(),
    decreases segs.len(),
{
    match over {
        Tree::Table(ov) => match base {
            Tree::Table(b) => {
                if segs.len() > 0 {
                    match lookup(ov, segs[0]) {
                        None => {},
                        Some(v) => match lookup(b, segs[0]) {
                            None => {},
                            Some(x) => {
                                lemma_depth_bound(x, v, segs.subrange(1, segs.len() as int));
                            },
                        },
                    }
                }
            },
            _ => {},
        },
        _ => {},
    }
}

/// Two attribution maps that agree on every nonempty prefix of `segs`
/// blame the same location for a failure there.
proof fn lemma_attribution_agree(
    m1: Map<Seq<Seq<char>>, OriginView>,
    m2: Map<Seq<Seq<char>>, OriginView>,
    last_file: Option<Seq<char>>,
    segs: Seq<Seq<char>>,
)
    requires
        forall|e: int| 1 <= e <= segs.len() ==> agree_at(m1, m2, #[trigger] segs.subrange(0, e)),
    ensures
        attribution(m1, last_file, segs) == attribution(m2, last_file, segs),
    decreases segs.len(),
{
    if segs.len() > 0 {
        let n = segs.len() as int;
        let pre = segs.subrange(0, n - 1);
        assert(segs.subrange(0, n) =~= segs);
        assert forall|e: int| 1 <= e <= pre.len() implies agree_at(m1, m2, #[trigger] pre.subrange(0, e)) by {
            assert(pre.subrange(0, e) =~= segs.subrange(0, e));
        }
        lemma_attribution_agree(m1, m2, last_file, pre);
    }
}

/// A failure at `segs` is blamed on the origin at its longest attributed
/// prefix.
proof fn lemma_attribution_found(
    m: Map<Seq<Seq<char>>, OriginView>,
    last_file: Option<Seq<char>>,
    segs: Seq<Seq<char>>,
    d: int,
)
    requires
        1 <= d <= segs.len(),
        m.contains_key(segs.subrange(0, d)),
        forall|e: int| d < e <= segs.len() ==> !m.contains_key(#[trigger] segs.subrange(0, e)),
    ensures
        attribution(m, last_file, segs) == origin_path(m[segs.subrange(0, d)]),
    decreases segs.len(),
{
    let n = segs.len() as int;
    assert(segs.subrange(0, n) =~= segs);
    if d < n {
        let pre = segs.subrange(0, n - 1);
        assert(pre.subrange(0, d) =~= segs.subrange(0, d));
        assert forall|e: int| d < e <= pre.len() implies !m.contains_key(#[trigger] pre.subrange(0, e)) by {
            assert(pre.subrange(0, e) =~= segs.subrange(0, e));
        }
        lemma_attribution_found(m, last_file, pre, d);
    }
}

/// A deserialization failure names the layer that supplied the offending
/// value: when `over` (no key twice in any table) merges in from `origin`
/// and puts a value in place at the failing key path `segs` or at one of
/// its prefixes, the failure is blamed on `origin`, however deep the path,
/// and whatever earlier layers had put below that value.
pub proof fn failure_names_supplying_layer(st: MergedView, over: Tree, origin: OriginView, segs: Seq<Seq<char>>)
    requires
        keys_unique(over),
        supplied_depth(st.value, over, segs) matches Some(d) && d > 0,
    ensures
        attribution(absorb(st, over, origin).provenance, st.last_file, segs) == origin_path(origin),
{
    let d = supplied_depth(st.value, over, segs).unwrap() as int;
    lemma_depth_bound(st.value, over, segs);
    let after = absorb(st, over, origin).provenance;
    let root = Seq::<Seq<char>>::empty();
    assert forall|e: int| 1 <= e <= segs.len() implies (e == d ==> after.contains_key(
        #[trigger] segs.subrange(0, e),
    ) && after[segs.subrange(0, e)] == origin) && (d < e ==> !after.contains_key(segs.subrange(0, e))) by {
        let pe = segs.subrange(0, e);
        assert(pe.subrange(0, 0) =~= root);
        assert(pe.subrange(0, pe.len() as int) =~= pe);
        lemma_depth_prefix(st.value, over, segs, e);
        lemma_track_descent(st.provenance, st.value, over, root, origin, pe);
    }
    lemma_attribution_found(after, st.last_file, segs, d);
}

/// A layer that puts nothing in place at a failing key path or above it
/// leaves the blame for a failure there where it was.
pub proof fn failure_elsewhere_keeps_its_attribution(
    st: MergedView,
    over: Tree,
    origin: OriginView,
    segs: Seq<Seq<char>>,
)
    requires
        keys_unique(over),
        supplied_depth(st.value, over, segs) is None,
    ensures
        attribution(absorb(st, over, origin).provenance, st.last_file, segs) == attribution(
            st.provenance,
            st.last_file,
            segs,
        ),
{
    let after = absorb(st, over, origin).provenance;
    let root = Seq::<Seq<char>>::empty();
    assert forall|e: int| 1 <= e <= segs.len() implies agree_at(after, st.provenance, #[trigger] segs.subrange(0, e)) by {
        let pe = segs.subrange(0, e);
        assert(pe.subrange(0, 0) =~= root);
        assert(pe.subrange(0, pe.len() as int) =~= pe);
        lemma_depth_prefix(st.value, over, segs, e);
        lemma_track_descent(st.provenance, st.value, over, root, origin, pe);
    }
    lemma_attribution_agree(after, st.provenance, st.last_file, segs);
}

/// `st` after each `(value, origin)` of `steps` merges in, in order.
pub open spec fn absorb_all(st: MergedView, steps: Seq<(Tree, OriginView)>) -> MergedView
    decreases steps.len(),
{
    if steps.len() == 0 {
        st
    } else {
        let n = steps.len() - 1;
        absorb(absorb_all(st, steps.subrange(0, n)), steps[n].0, steps[n].1)
    }
}

/// The origin of the last of `steps` that put a value in place at `segs`
/// or above it, if any did.
pub open spec fn last_supplier(st: MergedView, steps: Seq<(Tree, OriginView)>, segs: Seq<Seq<char>>) -> Option<
    OriginView,
>
    decreases steps.len(),
{
    if steps.len() == 0 {
        None
    } else {
        let n = steps.len() - 1;
        if supplied_depth(absorb_all(st, steps.subrange(0, n)).value, steps[n].0, segs) is Some {
            Some(steps[n].1)
        } else {
            last_supplier(st, steps.subrange(0, n), segs)
        }
    }
}

proof fn lemma_absorb_all_table(st: MergedView, steps: Seq<(Tree, OriginView)>)
    requires
        st.value is Table,
        forall|i: int| 0 <= i < steps.len() ==> (#[trigger] steps[i]).0 is Table,
    ensures
        absorb_all(st, steps).value is Table,
        absorb_all(st, steps).last_file == st.last_file,
    decreases steps.len(),
{
    if steps.len() > 0 {
        let n = steps.len() - 1;
        let p = steps.subrange(0, n);
        assert forall|i: int| 0 <= i < p.len() implies (#[trigger] p[i]).0 is Table by {
            assert(p[i] == steps[i]);
        }
        lemma_absorb_all_table(st, p);
    }
}

/// Attribution follows the winning layer: after tables (no key twice in
/// any of them) merge in one after another, a deserialization failure at
/// any key path, top-level or nested, is blamed on the last layer that
/// put a value in place at that path or above it; when none did, the
/// blame is what it was before they merged.
pub proof fn attribution_follows_last_supplier(
    st: MergedView,
    steps: Seq<(Tree, OriginView)>,
    segs: Seq<Seq<char>>,
)
    requires
        st.value is Table,
        forall|i: int| 0 <= i < steps.len() ==> (#[trigger] steps[i]).0 is Table && keys_unique(steps[i].0),
    ensures
        attribution(absorb_all(st, steps).provenance, st.last_file, segs) == match last_supplier(
            st,
            steps,
            segs,
        ) {
            Some(o) => origin_path(o),
            None => attribution(st.provenance, st.last_file, segs),
        },
    decreases steps.len(),
{
    if steps.len() > 0 {
        let n = steps.len() - 1;
        let p = steps.subrange(0, n);
        assert forall|i: int| 0 <= i < p.len() implies (#[trigger] p[i]).0 is Table && keys_unique(p[i].0) by {
            assert(p[i] == steps[i]);
        }
        attribution_follows_last_supplier(st, p, segs);
        lemma_absorb_all_table(st, p);
        let prev = absorb_all(st, p);
        let (over, origin) = steps[n];
        assert(over is Table && keys_unique(over));
        match supplied_depth(prev.value, over, segs) {
            Some(d) => {
                assert(d > 0);
                failure_names_supplying_layer(prev, over, origin, segs);
            },
            None => {
                failure_elsewhere_keeps_its_attribution(prev, over, origin, segs);
            },
        }
    }
}

proof fn lemma_upsert_distinct<V>(acc: Seq<(Seq<char>, V)>, k: Seq<char>, v: V)
    requires
        distinct_keys(acc),
    ensures
        distinct_keys(upsert(acc, k, v)),
{
    lemma_find_key(acc, k);
}

/// The bindings an environment layer collects have no key twice and hold
/// plain values.
proof fn lemma_collect_env_shape(prefix: Seq<char>, entries: Seq<EnvEntry>)
    requires
        collect_env(prefix, entries) is Ok,
    ensures
        distinct_keys(collect_env(prefix, entries)->Ok_0),
        forall|i: int| 0 <= i < (collect_env(prefix, entries)->Ok_0).len() ==> !((#[trigger] (collect_env(prefix, entries)->Ok_0)[i]).1.1 is Table),
    decreases entries.len(),
{
    if entries.len() > 0 {
        let p = entries.subrange(0, entries.len() - 1);
        lemma_collect_env_shape(prefix, p);
        let acc = collect_env(prefix, p)->Ok_0;
        let e = entries[entries.len() - 1];
        if let Some(key) = e.key {
            if let Ok(text) = e.value {
                let k = lowercase_key(prefix, key@);
                let x = (key@, infer_tree(text@, e.float_bits));
                lemma_upsert_distinct(acc, k, x);
                lemma_find_key(acc, k);
            }
        }
    }
}

spec fn lowercase_key(prefix: Seq<char>, key: Seq<char>) -> Seq<char> {
    crate::text::lowercase(key.subrange(prefix.len() as int, key.len() as int))
}

/// The table that an environment layer's bindings form.
pub open spec fn bindings_table(bs: Seq<(Seq<char>, (Seq<char>, Tree))>) -> Seq<(Seq<char>, Tree)> {
    bs.map_values(|b: (Seq<char>, (Seq<char>, Tree))| (b.0, b.1.1))
}

/// An environment layer merges like one table of all its bindings: the
/// key-by-key merges that attribute each value to its own variable leave
/// the same value as merging the whole table at once. (When the value
/// before is not a table and the layer supplies nothing, nothing is
/// merged and that value stays.)
pub proof fn env_layer_merges_as_one_table(st: MergedView, bs: Seq<(Seq<char>, (Seq<char>, Tree))>)
    requires
        st.value is Table || bs.len() > 0,
        distinct_keys(bs),
    ensures
        absorb_env(st, bs).value == merge(st.value, Tree::Table(bindings_table(bs))),
    decreases bs.len(),
{
    if bs.len() == 0 {
        assert(bindings_table(bs) =~= Seq::<(Seq<char>, Tree)>::empty());
    } else {
        let n = bs.len() - 1;
        let p = bs.subrange(0, n);
        let o = bindings_table(bs);
        let x = (bs[n].0, bs[n].1.1);
        assert(o.subrange(0, n) =~= bindings_table(p));
        assert(o[n] == x);
        let single = seq![x];
        assert(single.subrange(0, 0) =~= Seq::<(Seq<char>, Tree)>::empty());
        if st.value is Table {
            assert(distinct_keys(p));
            env_layer_merges_as_one_table(st, p);
            let b0 = st.value->Table_0;
            let acc = merge_entries(b0, bindings_table(p));
            assert(merge_entries(acc, single.subrange(0, 0)) == acc);
            assert(merge_entries(acc, single) == merge_entries(b0, o));
        } else if n == 0 {
            assert(o =~= single);
        } else {
            assert(distinct_keys(p));
            env_layer_merges_as_one_table(st, p);
            let acc = bindings_table(p);
            assert forall|j: int| 0 <= j < acc.len() implies acc[j].0 != x.0 by {
                assert(bs[j].0 != bs[n].0);
            }
            lemma_find_key_none(acc, x.0);
            assert(merge_entries(acc, single.subrange(0, 0)) == acc);
            assert(merge_entries(acc, single) == acc.push(x));
            assert(o =~= acc.push(x));
        }
    }
}

/// The steps in which an environment layer's bindings merge: each binding
/// as a one-entry table, from its variable.
pub open spec fn env_steps(bs: Seq<(Seq<char>, (Seq<char>, Tree))>) -> Seq<(Tree, OriginView)> {
    bs.map_values(|b: (Seq<char>, (Seq<char>, Tree))| (Tree::Table(seq![(b.0, b.1.1)]), OriginView::Env(b.1.0)))
}

proof fn lemma_absorb_env_steps(st: MergedView, bs: Seq<(Seq<char>, (Seq<char>, Tree))>)
    ensures
        absorb_env(st, bs) == absorb_all(st, env_steps(bs)),
    decreases bs.len(),
{
    if bs.len() > 0 {
        let n = bs.len() - 1;
        let p = bs.subrange(0, n);
        lemma_absorb_env_steps(st, p);
        assert(env_steps(bs).subrange(0, n) =~= env_steps(p));
    }
}

proof fn lemma_env_supplier(st: MergedView, bs: Seq<(Seq<char>, (Seq<char>, Tree))>, i: int, m: int)
    requires
        st.value is Table,
        distinct_keys(bs),
        forall|j: int| 0 <= j < bs.len() ==> !((#[trigger] bs[j]).1.1 is Table),
        0 <= i < m <= bs.len(),
    ensures
        last_supplier(st, env_steps(bs).subrange(0, m), seq![bs[i].0]) == Some(OriginView::Env(bs[i].1.0)),
    decreases m,
{
    let all = env_steps(bs);
    let s = all.subrange(0, m);
    let n = m - 1;
    let k = bs[i].0;
    let segs = seq![k];
    assert(s.subrange(0, n) =~= all.subrange(0, n));
    let prev = all.subrange(0, n);
    assert forall|j: int| 0 <= j < prev.len() implies (#[trigger] prev[j]).0 is Table by {}
    lemma_absorb_all_table(st, prev);
    let base = absorb_all(st, prev).value;
    let ov = seq![(bs[n].0, bs[n].1.1)];
    assert(s[n] == (Tree::Table(ov), OriginView::Env(bs[n].1.0)));
    lemma_find_key(ov, k);
    if n == i {
        assert(lookup(ov, k) == Some(bs[i].1.1));
        let b = base->Table_0;
        match lookup(b, k) {
            None => {},
            Some(x) => {
                assert(segs.subrange(1, 1) =~= Seq::<Seq<char>>::empty());
                assert(supplied_depth(x, bs[i].1.1, Seq::empty()) == Some(0nat));
            },
        }
        assert(supplied_depth(base, Tree::Table(ov), segs) is Some);
    } else {
        assert(bs[n].0 != k);
        assert(lookup(ov, k) is None);
        assert(supplied_depth(base, Tree::Table(ov), segs) is None);
        lemma_env_supplier(st, bs, i, n);
    }
}

/// An environment layer's values are attributed to their variables: after
/// the layer merges, a deserialization failure at a top-level key that the
/// layer supplied is reported as `<env:VARIABLE>`, naming the full
/// variable that supplied the value, and not the file it overrode.
pub proof fn env_failure_names_the_variable(st: MergedView, prefix: Seq<char>, entries: Seq<EnvEntry>, i: int)
    requires
        st.value is Table,
        collect_env(prefix, entries) is Ok,
        0 <= i < (collect_env(prefix, entries)->Ok_0).len(),
    ensures
        ({
            let bs = collect_env(prefix, entries)->Ok_0;
            attribution(absorb_env(st, bs).provenance, st.last_file, seq![bs[i].0])
                == "<env:"@ + bs[i].1.0 + ">"@
        }),
{
    let bs = collect_env(prefix, entries)->Ok_0;
    lemma_collect_env_shape(prefix, entries);
    let steps = env_steps(bs);
    assert forall|j: int| 0 <= j < steps.len() implies (#[trigger] steps[j]).0 is Table && keys_unique(steps[j].0) by {
        let e = seq![(bs[j].0, bs[j].1.1)];
        assert(steps[j].0 == Tree::Table(e));
        assert(!(bs[j].1.1 is Table));
        assert(keys_unique(e[0].1));
    }
    lemma_absorb_env_steps(st, bs);
    attribution_follows_last_supplier(st, steps, seq![bs[i].0]);
    lemma_env_supplier(st, bs, i, bs.len() as int);
    assert(steps.subrange(0, bs.len() as int) =~= steps);
}

/// The merges that one layer performs, given what was fetched for it: a
/// file's document from the file, an environment layer's bindings one at
/// a time from their variables, an override table from the overrides.
pub open spec fn layer_steps(layer: ConfigLayer, input: LayerInput) -> Seq<(Tree, OriginView)> {
    match layer {
        ConfigLayer::File(path, _) => match input {
            LayerInput::File(read) => match read_layer(path@, read_view(read)) {
                Ok(t) => seq![(t, OriginView::File(path@))],
                Err(_) => Seq::empty(),
            },
            _ => Seq::empty(),
        },
        ConfigLayer::EnvPrefix(prefix) => match input {
            LayerInput::Env(entries) => match collect_env(prefix@, entries@) {
                Ok(bs) => env_steps(bs),
                Err(_) => Seq::empty(),
            },
            _ => Seq::empty(),
        },
        ConfigLayer::Overrides(table) => seq![(Tree::Table(entries_of(table@)), OriginView::Overrides)],
    }
}

/// The merges that the first `n` layers perform, in order.
pub open spec fn all_steps(layers: Seq<ConfigLayer>, inputs: Seq<LayerInput>, n: nat) -> Seq<(Tree, OriginView)>
    decreases n,
{
    if n == 0 {
        Seq::empty()
    } else {
        all_steps(layers, inputs, (n - 1) as nat) + layer_steps(layers[n - 1], inputs[n - 1])
    }
}

proof fn lemma_absorb_all_concat(st: MergedView, s1: Seq<(Tree, OriginView)>, s2: Seq<(Tree, OriginView)>)
    ensures
        absorb_all(st, s1 + s2) == absorb_all(absorb_all(st, s1), s2),
    decreases s2.len(),
{
    if s2.len() == 0 {
        assert(s1 + s2 =~= s1);
    } else {
        let n = s2.len() - 1;
        let p = s2.subrange(0, n);
        lemma_absorb_all_concat(st, s1, p);
        assert((s1 + s2).subrange(0, (s1 + s2).len() - 1) =~= s1 + p);
        assert((s1 + s2)[(s1 + s2).len() - 1] == s2[n]);
    }
}

/// Which file was read last has no bearing on what the merges give.
proof fn lemma_absorb_all_last_file(st1: MergedView, st2: MergedView, s: Seq<(Tree, OriginView)>, segs: Seq<Seq<char>>)
    requires
        st1.value == st2.value,
        st1.provenance == st2.provenance,
    ensures
        absorb_all(st1, s).value == absorb_all(st2, s).value,
        absorb_all(st1, s).provenance == absorb_all(st2, s).provenance,
        absorb_all(st1, s).last_file == st1.last_file,
        last_supplier(st1, s, segs) == last_supplier(st2, s, segs),
    decreases s.len(),
{
    if s.len() > 0 {
        lemma_absorb_all_last_file(st1, st2, s.subrange(0, s.len() - 1), segs);
    }
}

proof fn lemma_apply_layers_steps(layers: Seq<ConfigLayer>, inputs: Seq<LayerInput>, n: nat)
    requires
        n <= layers.len(),
        n <= inputs.len(),
        apply_layers(layers, inputs, n) is Ok,
    ensures
        apply_layers(layers, inputs, n)->Ok_0.value == absorb_all(start_state(), all_steps(layers, inputs, n)).value,
        apply_layers(layers, inputs, n)->Ok_0.provenance == absorb_all(start_state(), all_steps(layers, inputs, n)).provenance,
    decreases n,
{
    if n > 0 {
        let k = (n - 1) as nat;
        lemma_apply_layers_steps(layers, inputs, k);
        let st = apply_layers(layers, inputs, k)->Ok_0;
        let s = all_steps(layers, inputs, k);
        let ls = layer_steps(layers[k as int], inputs[k as int]);
        let mid = absorb_all(start_state(), s);
        lemma_absorb_all_concat(start_state(), s, ls);
        lemma_absorb_all_last_file(st, mid, ls, Seq::empty());
        match layers[k as int] {
            ConfigLayer::File(path, _) => match inputs[k as int] {
                LayerInput::File(read) => match read_layer(path@, read_view(read)) {
                    Ok(t) => {
                        assert(ls.subrange(0, 0) =~= Seq::<(Tree, OriginView)>::empty());
                    },
                    Err(_) => {},
                },
                _ => {
                    assert(s + ls =~= s);
                },
            },
            ConfigLayer::EnvPrefix(prefix) => match inputs[k as int] {
                LayerInput::Env(entries) => match collect_env(prefix@, entries@) {
                    Ok(bs) => {
                        lemma_absorb_env_steps(st, bs);
                    },
                    Err(_) => {},
                },
                _ => {
                    assert(s + ls =~= s);
                },
            },
            ConfigLayer::Overrides(table) => {
                assert(ls.subrange(0, 0) =~= Seq::<(Tree, OriginView)>::empty());
            },
        }
    }
}

/// With no attributions, a failure is blamed on the last file read.
proof fn lemma_attribution_unattributed(last_file: Option<Seq<char>>, segs: Seq<Seq<char>>)
    ensures
        attribution(Map::empty(), last_file, segs) == match last_file {
            Some(f) => f,
            None => Seq::<char>::empty(),
        },
    decreases segs.len(),
{
    if segs.len() > 0 {
        lemma_attribution_unattributed(last_file, segs.subrange(0, segs.len() - 1));
    }
}

/// A file or override layer gives a table that holds no key twice in any
/// of its tables. (An environment layer always merges such tables.)
pub open spec fn layer_shaped(layer: ConfigLayer, input: LayerInput) -> bool {
    match layer {
        ConfigLayer::EnvPrefix(_) => true,
        _ => layer_value(layer, input) is Table && keys_unique(layer_value(layer, input)),
    }
}

proof fn lemma_steps_shaped(layers: Seq<ConfigLayer>, inputs: Seq<LayerInput>, n: nat)
    requires
        n <= layers.len(),
        n <= inputs.len(),
        forall|i: int| 0 <= i < n ==> layer_shaped(#[trigger] layers[i], inputs[i]),
    ensures
        forall|j: int|
            0 <= j < all_steps(layers, inputs, n).len() ==> (#[trigger] all_steps(layers, inputs, n)[j]).0 is Table
                && keys_unique(all_steps(layers, inputs, n)[j].0),
    decreases n,
{
    if n > 0 {
        let k = (n - 1) as nat;
        lemma_steps_shaped(layers, inputs, k);
        let prev = all_steps(layers, inputs, k);
        let ls = layer_steps(layers[k as int], inputs[k as int]);
        assert(layer_shaped(layers[k as int], inputs[k as int]));
        assert forall|j: int| 0 <= j < ls.len() implies (#[trigger] ls[j]).0 is Table && keys_unique(ls[j].0) by {
            match layers[k as int] {
                ConfigLayer::EnvPrefix(prefix) => match inputs[k as int] {
                    LayerInput::Env(entries) => {
                        lemma_collect_env_shape(prefix@, entries@);
                        let bs = collect_env(prefix@, entries@)->Ok_0;
                        let e = seq![(bs[j].0, bs[j].1.1)];
                        assert(ls[j].0 == Tree::Table(e));
                        assert(!(bs[j].1.1 is Table));
                        assert(keys_unique(e[0].1));
                    },
                    _ => {},
                },
                _ => {},
            }
        }
        assert forall|j: int| 0 <= j < (prev + ls).len() implies (#[trigger] (prev + ls)[j]).0 is Table && keys_unique((prev + ls)[j].0) by {
            if j >= prev.len() {
                assert((prev + ls)[j] == ls[j - prev.len()]);
            }
        }
    }
}

/// What a load blames a deserialization failure on: after all the layers
/// merge, a failure at any key path is blamed on the last merge (a file,
/// an environment variable, or the overrides) that put a value in place
/// at that path or above it; when none did, on the last file read, or on
/// nothing when no file was read. This holds when every file and override
/// layer gives a table with no key twice in any of its tables: a parsed
/// file has no key twice ([`ConfigBuilder::merged`] states it of every file
/// layer it merged), a TOML document is always a table, and
/// [`ConfigLayer::overrides`] gives such a table.
pub proof fn load_blames_the_last_supplier(layers: Seq<ConfigLayer>, inputs: Seq<LayerInput>, segs: Seq<Seq<char>>)
    requires
        layers.len() == inputs.len(),
        apply_layers(layers, inputs, layers.len()) is Ok,
        forall|i: int| 0 <= i < layers.len() ==> layer_shaped(#[trigger] layers[i], inputs[i]),
    ensures
        ({
            let m = apply_layers(layers, inputs, layers.len())->Ok_0;
            attribution(m.provenance, m.last_file, segs) == match last_supplier(
                start_state(),
                all_steps(layers, inputs, layers.len()),
                segs,
            ) {
                Some(o) => origin_path(o),
                None => match m.last_file {
                    Some(f) => f,
                    None => Seq::<char>::empty(),
                },
            }
        }),
{
    let n = layers.len();
    let m = apply_layers(layers, inputs, n)->Ok_0;
    let steps = all_steps(layers, inputs, n);
    lemma_steps_shaped(layers, inputs, n);
    lemma_apply_layers_steps(layers, inputs, n);
    let st0 = MergedView { last_file: m.last_file, ..start_state() };
    lemma_absorb_all_last_file(st0, start_state(), steps, segs);
    attribution_follows_last_supplier(st0, steps, segs);
    lemma_attribution_unattributed(m.last_file, segs);
}

/// The value a layer contributes, given what was fetched for it.
pub open spec fn layer_value(layer: ConfigLayer, input: LayerInput) -> Tree {
    match layer {
        ConfigLayer::File(path, _) => match input {
            LayerInput::File(read) => match read_layer(path@, read_view(read)) {
                Ok(t) => t,
                Err(_) => Tree::Table(Seq::empty()),
            },
            _ => Tree::Table(Seq::empty()),
        },
        ConfigLayer::EnvPrefix(prefix) => match input {
            LayerInput::Env(entries) => match collect_env(prefix@, entries@) {
                Ok(bs) => Tree::Table(bindings_table(bs)),
                Err(_) => Tree::Table(Seq::empty()),
            },
            _ => Tree::Table(Seq::empty()),
        },
        ConfigLayer::Overrides(table) => Tree::Table(entries_of(table@)),
    }
}

proof fn lemma_apply_layers_push(layers: Seq<ConfigLayer>, inputs: Seq<LayerInput>, l: ConfigLayer, x: LayerInput, n: nat)
    requires
        n <= layers.len(),
        n <= inputs.len(),
    ensures
        apply_layers(layers.push(l), inputs.push(x), n) == apply_layers(layers, inputs, n),
    decreases n,
{
    if n > 0 {
        lemma_apply_layers_push(layers, inputs, l, x, (n - 1) as nat);
        assert(layers.push(l)[n - 1] == layers[n - 1]);
        assert(inputs.push(x)[n - 1] == inputs[n - 1]);
    }
}

/// Adding a layer deep-merges its value into what the earlier layers
/// gave: layers fold left in the order added, so the later layer wins on
/// colliding keys and siblings survive. The one exception: an environment
/// layer that matches no variable merges nothing, so a value before it
/// that is not a table stays as it was.
pub proof fn adding_a_layer_merges_its_value(
    layers: Seq<ConfigLayer>,
    inputs: Seq<LayerInput>,
    layer: ConfigLayer,
    input: LayerInput,
)
    requires
        layers.len() == inputs.len(),
        input_fits(layer, input),
        apply_layers(layers, inputs, layers.len()) is Ok,
        apply_layers(layers.push(layer), inputs.push(input), layers.len() + 1) is Ok,
        layer is EnvPrefix ==> (apply_layers(layers, inputs, layers.len())->Ok_0.value is Table
            || layer_value(layer, input) != Tree::Table(Seq::empty())),
    ensures
        apply_layers(layers.push(layer), inputs.push(input), layers.len() + 1)->Ok_0.value == merge(
            apply_layers(layers, inputs, layers.len())->Ok_0.value,
            layer_value(layer, input),
        ),
{
    let n = layers.len();
    lemma_apply_layers_push(layers, inputs, layer, input, n);
    assert(layers.push(layer)[n as int] == layer);
    assert(inputs.push(input)[n as int] == input);
    let st = apply_layers(layers, inputs, n)->Ok_0;
    match layer {
        ConfigLayer::EnvPrefix(prefix) => match input {
            LayerInput::Env(entries) => {
                let bs = collect_env(prefix@, entries@)->Ok_0;
                lemma_collect_env_shape(prefix@, entries@);
                if bs.len() == 0 {
                    assert(bindings_table(bs) =~= Seq::<(Seq<char>, Tree)>::empty());
                }
                env_layer_merges_as_one_table(st, bs);
            },
            _ => {},
        },
        _ => {},
    }
}

} // verus!
