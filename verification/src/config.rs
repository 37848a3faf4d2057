//! The layered store: defaults, ordered sources and overrides are merged
//! into one cached value tree, recomputed from scratch on every mutation.

use vstd::prelude::*;
use crate::error::ConfigError;
use crate::error::ErrorView;
use crate::path::lemma_write_read;
use crate::path::spec_parse_expr;
use crate::path::spec_read;
use crate::path::spec_write;
use crate::path::view_of_step;
use crate::path::view_of_steps;
use crate::path::group_step_views;
use crate::path::Expression;
use crate::path::Step;
use crate::path::StepView;
use crate::strutil::ascii_lower;
use crate::strutil::to_ascii_lowercase;
use crate::strutil::spec_int_text;
use crate::strutil::spec_int_value;
use crate::strutil::spec_is_int_literal;
use crate::value::group_value_views;
use crate::value::opt_str_view;
use crate::value::spec_is_false_word;
use crate::value::spec_is_true_word;
use crate::value::spec_type_name;
use crate::value::view_of_entries;
use crate::value::view_of_value;
use crate::value::view_of_values;
use crate::value::KindView;
use crate::value::Table;
use crate::value::Value;
use crate::value::ValueKind;
use crate::value::ValueView;
use vstd::pervasive::unreached;

verus! {

/// One configuration source: its description (a file name, a URI, a
/// phrase such as "the environment") and what it contributes — a list of
/// key text to value pairs in the source's own order, or the source's
/// own failure message. The surrounding application ingests a file or a
/// remote document into this shape; the store merges it.
#[derive(Debug)]
pub struct Source {
    pub uri: Option<String>,
    pub outcome: Result<Vec<(String, Value)>, String>,
}

/// Mathematical model of a source.
pub struct SourceView {
    pub uri: Option<Seq<char>>,
    pub outcome: Result<Seq<(Seq<char>, ValueView)>, Seq<char>>,
}

impl View for Source {
    type V = SourceView;

    open spec fn view(&self) -> SourceView {
        SourceView {
            uri: opt_str_view(self.uri),
            outcome: match self.outcome {
                Ok(ref pairs) => Ok(view_of_entries(pairs@)),
                Err(ref m) => Err(m@),
            },
        }
    }
}

/// Mathematical model of one layer: expression to value bindings in
/// insertion order.
pub type LayerView = Seq<(Seq<StepView>, ValueView)>;

/// The views of a layer's bindings, elementwise.
pub open(crate) spec fn view_of_layer(s: Seq<(Expression, Value)>) -> LayerView
    decreases s,
{
    if s.len() == 0 {
        Seq::empty()
    } else {
        view_of_layer(s.drop_last()).push((s.last().0@, view_of_value(s.last().1)))
    }
}

/// `view_of_layer` keeps the length.
pub broadcast proof fn lemma_view_of_layer_len(s: Seq<(Expression, Value)>)
    ensures
        (#[trigger] view_of_layer(s)).len() == s.len(),
    decreases s,
{
    if s.len() > 0 {
        lemma_view_of_layer_len(s.drop_last());
    }
}

/// `view_of_layer` maps the sequence elementwise.
pub broadcast proof fn lemma_view_of_layer_index(s: Seq<(Expression, Value)>, i: int)
    ensures
        0 <= i < s.len() ==> (#[trigger] view_of_layer(s)[i]) == (s[i].0@, view_of_value(s[i].1)),
    decreases s,
{
    lemma_view_of_layer_len(s);
    if s.len() > 0 {
        lemma_view_of_layer_index(s.drop_last(), i);
        lemma_view_of_layer_len(s.drop_last());
    }
}

/// The views of a sequence of sources, elementwise.
pub open(crate) spec fn view_of_sources(s: Seq<Source>) -> Seq<SourceView>
    decreases s,
{
    if s.len() == 0 {
        Seq::empty()
    } else {
        view_of_sources(s.drop_last()).push(s.last()@)
    }
}

/// `view_of_sources` keeps the length.
pub broadcast proof fn lemma_view_of_sources_len(s: Seq<Source>)
    ensures
        (#[trigger] view_of_sources(s)).len() == s.len(),
    decreases s,
{
    if s.len() > 0 {
        lemma_view_of_sources_len(s.drop_last());
    }
}

/// `view_of_sources` maps the sequence elementwise.
pub broadcast proof fn lemma_view_of_sources_index(s: Seq<Source>, i: int)
    ensures
        0 <= i < s.len() ==> (#[trigger] view_of_sources(s)[i]) == s[i]@,
    decreases s,
{
    lemma_view_of_sources_len(s);
    if s.len() > 0 {
        lemma_view_of_sources_index(s.drop_last(), i);
        lemma_view_of_sources_len(s.drop_last());
    }
}

/// Groups the elementwise facts about layer and source views.
pub broadcast group group_config_views {
    lemma_view_of_layer_len,
    lemma_view_of_layer_index,
    lemma_view_of_sources_len,
    lemma_view_of_sources_index,
}

/// Whether the store still accepts mutations, with the three layers, or
/// has been frozen for good.
#[derive(Debug)]
pub enum ConfigKind {
    Mutable {
        defaults: Vec<(Expression, Value)>,
        overrides: Vec<(Expression, Value)>,
        sources: Vec<Source>,
    },
    Frozen,
}

/// Mathematical model of the store's mutability state and layers.
pub enum ConfigKindView {
    Mutable { defaults: LayerView, overrides: LayerView, sources: Seq<SourceView> },
    Frozen,
}

/// Mathematical model of the whole store.
pub struct ConfigView {
    pub kind: ConfigKindView,
    pub cache: ValueView,
}

pub open(crate) spec fn view_of_config_kind(k: ConfigKind) -> ConfigKindView {
    match k {
        ConfigKind::Mutable { defaults, overrides, sources } => ConfigKindView::Mutable {
            defaults: view_of_layer(defaults@),
            overrides: view_of_layer(overrides@),
            sources: view_of_sources(sources@),
        },
        ConfigKind::Frozen => ConfigKindView::Frozen,
    }
}

/// A prioritized configuration repository. It maintains a set of
/// configuration sources, fetches values to populate a merged cache, and
/// answers reads from that cache according to each layer's priority.
#[derive(Debug)]
pub struct Config {
    pub(crate) kind: ConfigKind,
    /// Root of the cached configuration.
    pub cache: Value,
}

impl View for Config {
    type V = ConfigView;

    open(crate) spec fn view(&self) -> ConfigView {
        ConfigView { kind: view_of_config_kind(self.kind), cache: view_of_value(self.cache) }
    }
}

/// The empty table value every rebuild starts from.
pub open spec fn empty_table_view() -> ValueView {
    ValueView { origin: None, kind: KindView::Table(Seq::empty()) }
}

/// The model of a store that holds nothing yet: all layers empty, the
/// cache an empty table.
pub open spec fn empty_config_view() -> ConfigView {
    ConfigView {
        kind: ConfigKindView::Mutable {
            defaults: Seq::empty(),
            overrides: Seq::empty(),
            sources: Seq::empty(),
        },
        cache: empty_table_view(),
    }
}

// ---------------------------------------------------------------------
// Construction and copying
// ---------------------------------------------------------------------

impl Config {
    /// An empty mutable store.
    pub fn new() -> (r: Config)
        ensures
            r@ == empty_config_view(),
    {
        Config::default()
    }

    /// Freezes the store for good: every later mutation fails with
    /// `Frozen`, while reads keep answering from the last computed cache.
    pub fn freeze(&mut self)
        ensures
            final(self)@.kind == ConfigKindView::Frozen,
            final(self)@.cache == old(self)@.cache,
    {
        self.kind = ConfigKind::Frozen;
    }
}

impl Default for Config {
    /// An empty mutable store.
    fn default() -> (r: Config)
        ensures
            r@ == empty_config_view(),
    {
        let r = Config {
            kind: ConfigKind::Mutable {
                defaults: Vec::new(),
                overrides: Vec::new(),
                sources: Vec::new(),
            },
            cache: Value::new(None, ValueKind::Table(Table::new())),
        };
        proof {
            assert(view_of_layer(Seq::<(Expression, Value)>::empty()) =~= Seq::<(
                Seq<StepView>,
                ValueView,
            )>::empty());
            assert(view_of_sources(Seq::<Source>::empty()) =~= Seq::<SourceView>::empty());
        }
        r
    }
}

impl Clone for Step {
    /// A copy with the same model.
    fn clone(&self) -> (r: Step)
        ensures
            r@ == self@,
    {
        match self {
            Step::Key(k) => Step::Key(k.clone()),
            Step::Index(i) => Step::Index(*i),
        }
    }
}

impl Clone for Expression {
    /// A copy with the same model.
    fn clone(&self) -> (r: Expression)
        ensures
            r@ == self@,
    {
        broadcast use group_step_views;

        let mut steps: Vec<Step> = Vec::new();
        let n = self.steps.len();
        let mut i: usize = 0;
        while i < n
            invariant
                i <= n,
                n == self.steps@.len(),
                steps@.len() == i,
                forall|j: int| 0 <= j < i ==> view_of_step(steps@[j]) == view_of_step(
                    self.steps@[j],
                ),
            decreases n - i,
        {
            steps.push(self.steps[i].clone());
            i = i + 1;
        }
        let r = Expression { steps };
        proof {
            assert(r@ =~= self@);
        }
        r
    }
}

impl Clone for Source {
    /// A copy with the same model.
    fn clone(&self) -> (r: Source)
        ensures
            r@ == self@,
    {
        broadcast use group_value_views;

        let uri = match &self.uri {
            Some(u) => Some(u.clone()),
            None => None,
        };
        match &self.outcome {
            Err(m) => Source { uri, outcome: Err(m.clone()) },
            Ok(pairs) => {
                let mut out: Vec<(String, Value)> = Vec::new();
                let n = pairs.len();
                let mut i: usize = 0;
                while i < n
                    invariant
                        i <= n,
                        n == pairs@.len(),
                        out@.len() == i,
                        forall|j: int|
                            0 <= j < i ==> out@[j].0@ == pairs@[j].0@ && view_of_value(out@[j].1)
                                == view_of_value(pairs@[j].1),
                    decreases n - i,
                {
                    let e = &pairs[i];
                    out.push((e.0.clone(), e.1.clone()));
                    i = i + 1;
                }
                let r = Source { uri, outcome: Ok(out) };
                proof {
                    assert(view_of_entries(out@) =~= view_of_entries(pairs@));
                }
                r
            },
        }
    }
}

fn clone_layer(layer: &Vec<(Expression, Value)>) -> (r: Vec<(Expression, Value)>)
    ensures
        view_of_layer(r@) == view_of_layer(layer@),
{
    broadcast use group_config_views;

    let mut out: Vec<(Expression, Value)> = Vec::new();
    let n = layer.len();
    let mut i: usize = 0;
    while i < n
        invariant
            i <= n,
            n == layer@.len(),
            out@.len() == i,
            forall|j: int|
                0 <= j < i ==> out@[j].0@ == layer@[j].0@ && view_of_value(out@[j].1)
                    == view_of_value(layer@[j].1),
        decreases n - i,
    {
        let e = &layer[i];
        out.push((e.0.clone(), e.1.clone()));
        i = i + 1;
    }
    proof {
        assert(view_of_layer(out@) =~= view_of_layer(layer@));
    }
    out
}

impl Clone for ConfigKind {
    /// A copy with the same model.
    fn clone(&self) -> (r: ConfigKind)
        ensures
            view_of_config_kind(r) == view_of_config_kind(*self),
    {
        broadcast use group_config_views;

        match self {
            ConfigKind::Frozen => ConfigKind::Frozen,
            ConfigKind::Mutable { defaults, overrides, sources } => {
                let mut srcs: Vec<Source> = Vec::new();
                let n = sources.len();
                let mut i: usize = 0;
                while i < n
                    invariant
                        i <= n,
                        n == sources@.len(),
                        srcs@.len() == i,
                        forall|j: int| 0 <= j < i ==> srcs@[j]@ == sources@[j]@,
                    decreases n - i,
                {
                    srcs.push(sources[i].clone());
                    i = i + 1;
                }
                let r = ConfigKind::Mutable {
                    defaults: clone_layer(defaults),
                    overrides: clone_layer(overrides),
                    sources: srcs,
                };
                proof {
                    assert(view_of_sources(srcs@) =~= view_of_sources(sources@));
                }
                r
            },
        }
    }
}

impl Clone for Config {
    /// A deep copy with the same model.
    fn clone(&self) -> (r: Config)
        ensures
            r@ == self@,
    {
        Config { kind: self.kind.clone(), cache: self.cache.clone() }
    }
}

// ---------------------------------------------------------------------
// The merge model
// ---------------------------------------------------------------------

/// A layer's bindings written into `acc`, first binding first; a later
/// binding of the same location wins.
pub open spec fn spec_apply_layer(acc: ValueView, layer: LayerView) -> ValueView
    decreases layer.len(),
{
    if layer.len() == 0 {
        acc
    } else {
        spec_apply_layer(spec_write(acc, layer[0].0, layer[0].1), layer.drop_first())
    }
}

/// The leaf bindings a value contributes below a path prefix: tables and
/// arrays dissolve recursively into fully qualified leaf paths, scalars
/// and nil are leaves themselves.
pub open spec fn spec_flatten(prefix: Seq<StepView>, v: ValueView) -> LayerView
    decreases v,
{
    match v.kind {
        KindView::Table(es) => spec_flatten_entries(prefix, es),
        KindView::Array(vs) => spec_flatten_items(prefix, vs),
        _ => seq![(prefix, v)],
    }
}

/// The leaf bindings of a table's entries, in entry order.
pub open spec fn spec_flatten_entries(
    prefix: Seq<StepView>,
    es: Seq<(Seq<char>, ValueView)>,
) -> LayerView
    decreases es,
{
    if es.len() == 0 {
        Seq::empty()
    } else {
        spec_flatten_entries(prefix, es.drop_last()) + spec_flatten(
            prefix.push(StepView::Key(es.last().0)),
            es.last().1,
        )
    }
}

/// The leaf bindings of an array's elements, in element order.
pub open spec fn spec_flatten_items(prefix: Seq<StepView>, vs: Seq<ValueView>) -> LayerView
    decreases vs,
{
    if vs.len() == 0 {
        Seq::empty()
    } else {
        spec_flatten_items(prefix, vs.drop_last()) + spec_flatten(
            prefix.push(StepView::Index(vs.len() - 1)),
            vs.last(),
        )
    }
}

/// One source's pairs written into `acc` in the source's order: each key
/// is lower-cased and parsed, its value flattened to leaves; an
/// unparseable key fails the whole application.
pub open spec fn spec_apply_pairs(
    acc: ValueView,
    pairs: Seq<(Seq<char>, ValueView)>,
) -> Option<ValueView>
    decreases pairs.len(),
{
    if pairs.len() == 0 {
        Some(acc)
    } else {
        match spec_parse_expr(ascii_lower(pairs[0].0)) {
            Some(steps) => spec_apply_pairs(
                spec_apply_layer(acc, spec_flatten(steps, pairs[0].1)),
                pairs.drop_first(),
            ),
            None => None,
        }
    }
}

/// All sources written into `acc` in insertion order; a failing source
/// or an unparseable key fails the whole application.
pub open spec fn spec_apply_sources(acc: ValueView, ss: Seq<SourceView>) -> Option<ValueView>
    decreases ss.len(),
{
    if ss.len() == 0 {
        Some(acc)
    } else {
        match ss[0].outcome {
            Err(_) => None,
            Ok(pairs) => match spec_apply_pairs(acc, pairs) {
                Some(acc2) => spec_apply_sources(acc2, ss.drop_first()),
                None => None,
            },
        }
    }
}

/// The error one source's pairs surface when their application fails:
/// the parse error of the first key that does not parse, carrying the
/// offending fragment of the lower-cased key text.
pub open spec fn spec_pairs_error(acc: ValueView, pairs: Seq<(Seq<char>, ValueView)>) -> ErrorView
    decreases pairs.len(),
{
    if pairs.len() == 0 {
        ErrorView::ParseError { fragment: Seq::empty() }
    } else {
        let lowered = ascii_lower(pairs[0].0);
        match spec_parse_expr(lowered) {
            None => ErrorView::ParseError {
                fragment: lowered.skip(crate::path::spec_parse_key_errpos(lowered, 0)),
            },
            Some(steps) => spec_pairs_error(
                spec_apply_layer(acc, spec_flatten(steps, pairs[0].1)),
                pairs.drop_first(),
            ),
        }
    }
}

/// The error a recomputation surfaces when applying the sources to `acc`
/// fails: the first failing source decides — its own message, verbatim,
/// under its description, or the parse error of its first unparseable
/// key. Nothing when every source applies cleanly.
pub open spec fn spec_sources_error(acc: ValueView, ss: Seq<SourceView>) -> Option<ErrorView>
    decreases ss.len(),
{
    if ss.len() == 0 {
        None
    } else {
        match ss[0].outcome {
            Err(m) => Some(ErrorView::SourceError { uri: ss[0].uri, message: m }),
            Ok(pairs) => match spec_apply_pairs(acc, pairs) {
                Some(acc2) => spec_sources_error(acc2, ss.drop_first()),
                None => Some(spec_pairs_error(acc, pairs)),
            },
        }
    }
}

/// The error a recomputation over these layers surfaces when it fails.
pub open spec fn spec_refresh_error(
    defaults: LayerView,
    sources: Seq<SourceView>,
) -> Option<ErrorView> {
    spec_sources_error(spec_apply_layer(empty_table_view(), defaults), sources)
}

/// The fully merged tree: an empty table, then the defaults, then every
/// source in insertion order, then the overrides — so overrides beat
/// sources, later sources beat earlier ones, and everything beats
/// defaults. Nothing if a source fails.
pub open spec fn spec_merged(
    defaults: LayerView,
    sources: Seq<SourceView>,
    overrides: LayerView,
) -> Option<ValueView> {
    match spec_apply_sources(spec_apply_layer(empty_table_view(), defaults), sources) {
        Some(a) => Some(spec_apply_layer(a, overrides)),
        None => None,
    }
}

/// A binding placed in a layer: the first binding of a structurally
/// equal expression is replaced in place (so the layer never holds two
/// bindings of one expression), a new expression is appended.
pub open spec fn spec_layer_insert(layer: LayerView, e: Seq<StepView>, v: ValueView) -> LayerView
    decreases layer.len(),
{
    if layer.len() == 0 {
        seq![(e, v)]
    } else if layer[0].0 == e {
        seq![(e, v)] + layer.drop_first()
    } else {
        seq![layer[0]] + spec_layer_insert(layer.drop_first(), e, v)
    }
}

/// How a store and a mutation outcome relate across one recomputation:
/// a frozen store never changes and never succeeds; a mutable store
/// keeps its layers, and on success its cache becomes the merged tree,
/// while on failure the previous cache stays untouched.
pub open spec fn spec_refreshed(pre: ConfigView, post: ConfigView, ok: bool) -> bool {
    match pre.kind {
        ConfigKindView::Frozen => post == pre && !ok,
        ConfigKindView::Mutable { defaults, overrides, sources } => {
            &&& post.kind == pre.kind
            &&& match spec_merged(defaults, sources, overrides) {
                Some(c) => ok && post.cache == c,
                None => !ok && post.cache == pre.cache,
            }
        },
    }
}

// ---------------------------------------------------------------------
// The executable merge
// ---------------------------------------------------------------------

fn clone_steps(v: &Vec<Step>) -> (r: Vec<Step>)
    ensures
        view_of_steps(r@) == view_of_steps(v@),
{
    broadcast use group_step_views;

    let mut out: Vec<Step> = Vec::new();
    let n = v.len();
    let mut i: usize = 0;
    while i < n
        invariant
            i <= n,
            n == v@.len(),
            out@.len() == i,
            forall|j: int| 0 <= j < i ==> view_of_step(out@[j]) == view_of_step(v@[j]),
        decreases n - i,
    {
        out.push(v[i].clone());
        i = i + 1;
    }
    proof {
        assert(view_of_steps(out@) =~= view_of_steps(v@));
    }
    out
}

fn flatten_into(prefix: Vec<Step>, v: &Value, out: &mut Vec<(Expression, Value)>)
    ensures
        view_of_layer(final(out)@) == view_of_layer(old(out)@) + spec_flatten(
            view_of_steps(prefix@),
            v@,
        ),
    decreases *v,
{
    broadcast use group_step_views;
    broadcast use group_value_views;
    broadcast use group_config_views;

    let ghost pv = view_of_steps(prefix@);
    let ghost out0 = view_of_layer(out@);
    match &v.kind {
        ValueKind::Table(t) => {
            let ghost es = t@;
            proof {
                assert(v@.kind == KindView::Table(es));
                assert(decreases_to!(*v => v.kind));
                assert(decreases_to!(v.kind => *t));
                assert(decreases_to!(*t => t.entries));
                assert(decreases_to!(t.entries => t.entries@));
                assert(decreases_to!(*v => t.entries@));
            }
            let n = t.len();
            let mut i: usize = 0;
            while i < n
                invariant
                    i <= n,
                    n == t.entries@.len(),
                    es == view_of_entries(t.entries@),
                    es.len() == n,
                    pv == view_of_steps(prefix@),
                    view_of_layer(out@) == out0 + spec_flatten_entries(pv, es.take(i as int)),
                    decreases_to!(*v => t.entries@),
                decreases n - i,
            {
                proof {
                    broadcast use group_value_views;

                    assert(decreases_to!(t.entries@ => t.entries@[i as int]));
                    assert(decreases_to!(t.entries@[i as int] => t.entries@[i as int].1));
                    assert(es[i as int] == (t.entries@[i as int].0@, view_of_value(
                        t.entries@[i as int].1,
                    )));
                }
                let entry = &t.entries[i];
                let mut p2 = clone_steps(&prefix);
                let ghost cl = p2@;
                p2.push(Step::Key(entry.0.clone()));
                proof {
                    assert(p2@.drop_last() =~= cl);
                    assert(p2@.last() == Step::Key(entry.0));
                    assert(view_of_steps(p2@) == view_of_steps(cl).push(
                        view_of_step(p2@.last()),
                    ));
                    assert(view_of_steps(p2@) =~= pv.push(StepView::Key(es[i as int].0)));
                }
                flatten_into(p2, &t.entries[i].1, out);
                proof {
                    let taken = es.take(i as int + 1);
                    assert(taken.drop_last() =~= es.take(i as int));
                    assert(taken.last() == es[i as int]);
                    assert(view_of_layer(out@) =~= out0 + spec_flatten_entries(pv, taken));
                }
                i = i + 1;
            }
            proof {
                assert(es.take(n as int) =~= es);
            }
        },
        ValueKind::Array(a) => {
            let ghost vs = crate::value::view_of_values(a@);
            proof {
                assert(v@.kind == KindView::Array(vs));
                assert(decreases_to!(*v => v.kind));
                assert(decreases_to!(v.kind => *a));
                assert(decreases_to!(*a => a@));
                assert(decreases_to!(*v => a@));
            }
            let n = a.len();
            let mut i: usize = 0;
            while i < n
                invariant
                    i <= n,
                    n == a@.len(),
                    vs == crate::value::view_of_values(a@),
                    vs.len() == n,
                    pv == view_of_steps(prefix@),
                    view_of_layer(out@) == out0 + spec_flatten_items(pv, vs.take(i as int)),
                    decreases_to!(*v => a@),
                decreases n - i,
            {
                proof {
                    broadcast use group_value_views;

                    assert(decreases_to!(a@ => a@[i as int]));
                    assert(vs[i as int] == view_of_value(a@[i as int]));
                }
                let mut p2 = clone_steps(&prefix);
                let ghost cl = p2@;
                p2.push(Step::Index(i));
                proof {
                    assert(p2@.drop_last() =~= cl);
                    assert(p2@.last() == Step::Index(i));
                    assert(view_of_steps(p2@) == view_of_steps(cl).push(
                        view_of_step(p2@.last()),
                    ));
                    assert(view_of_steps(p2@) =~= pv.push(StepView::Index(i as int)));
                }
                flatten_into(p2, &a[i], out);
                proof {
                    let taken = vs.take(i as int + 1);
                    assert(taken.drop_last() =~= vs.take(i as int));
                    assert(taken.last() == vs[i as int]);
                    assert(taken.len() - 1 == i);
                    assert(view_of_layer(out@) =~= out0 + spec_flatten_items(pv, taken));
                }
                i = i + 1;
            }
            proof {
                assert(vs.take(n as int) =~= vs);
            }
        },
        _ => {
            out.push((Expression { steps: prefix }, v.clone()));
            proof {
                assert(spec_flatten(pv, v@) =~= seq![(pv, v@)]);
                assert(out@.drop_last() =~= old(out)@);
                assert(view_of_layer(out@) == view_of_layer(old(out)@).push(
                    (out@.last().0@, view_of_value(out@.last().1)),
                ));
                assert(view_of_layer(out@) =~= out0 + seq![(pv, v@)]);
            }
        },
    }
}

fn apply_layer(cache: &mut Value, layer: &Vec<(Expression, Value)>)
    ensures
        final(cache)@ == spec_apply_layer(old(cache)@, view_of_layer(layer@)),
{
    broadcast use group_config_views;

    let ghost lv = view_of_layer(layer@);
    proof {
        assert(lv.skip(0) =~= lv);
    }
    let n = layer.len();
    let mut i: usize = 0;
    while i < n
        invariant
            i <= n,
            n == layer@.len(),
            lv == view_of_layer(layer@),
            lv.len() == n,
            spec_apply_layer(cache@, lv.skip(i as int)) == spec_apply_layer(old(cache)@, lv),
        decreases n - i,
    {
        proof {
            broadcast use group_config_views;

            assert(lv.skip(i as int)[0] == lv[i as int]);
            assert(lv[i as int] == (layer@[i as int].0@, view_of_value(layer@[i as int].1)));
            assert(lv.skip(i as int).drop_first() =~= lv.skip(i as int + 1));
        }
        let entry = &layer[i];
        entry.0.set(cache, entry.1.clone());
        i = i + 1;
    }
    proof {
        assert(lv.skip(n as int) =~= Seq::<(Seq<StepView>, ValueView)>::empty());
    }
}

fn rebuild(
    defaults: &Vec<(Expression, Value)>,
    sources: &Vec<Source>,
    overrides: &Vec<(Expression, Value)>,
) -> (r: Result<Value, ConfigError>)
    ensures
        match r {
            Ok(c) => spec_merged(
                view_of_layer(defaults@),
                view_of_sources(sources@),
                view_of_layer(overrides@),
            ) == Some(c@),
            Err(e) => {
                &&& spec_merged(
                    view_of_layer(defaults@),
                    view_of_sources(sources@),
                    view_of_layer(overrides@),
                ) is None
                &&& spec_refresh_error(view_of_layer(defaults@), view_of_sources(sources@))
                    == Some(e@)
                &&& (e@ matches ErrorView::SourceError { .. } || e@
                    matches ErrorView::ParseError { .. })
            },
        },
{
    broadcast use group_config_views;
    broadcast use group_value_views;

    let mut cache = Value::new(None, ValueKind::Table(Table::new()));
    proof {
        assert(cache@ =~= empty_table_view());
    }
    apply_layer(&mut cache, defaults);
    let ghost acc0 = cache@;
    let ghost sv = view_of_sources(sources@);
    proof {
        assert(sv.skip(0) =~= sv);
    }
    let n = sources.len();
    let mut i: usize = 0;
    while i < n
        invariant
            i <= n,
            n == sources@.len(),
            sv == view_of_sources(sources@),
            sv.len() == n,
            acc0 == spec_apply_layer(empty_table_view(), view_of_layer(defaults@)),
            spec_apply_sources(cache@, sv.skip(i as int)) == spec_apply_sources(acc0, sv),
            spec_apply_sources(acc0, sv) is None ==> spec_sources_error(cache@, sv.skip(i as int))
                == spec_sources_error(acc0, sv),
        decreases n - i,
    {
        proof {
            broadcast use group_config_views;

            assert(sv.skip(i as int)[0] == sv[i as int]);
            assert(sv[i as int] == sources@[i as int]@);
            assert(sv.skip(i as int).drop_first() =~= sv.skip(i as int + 1));
        }
        let src = &sources[i];
        match &src.outcome {
            Err(m) => {
                proof {
                    assert(sv.skip(i as int)[0] == sv[i as int]);
                    assert(sv[i as int].outcome is Err);
                    assert(spec_apply_sources(cache@, sv.skip(i as int)) is None);
                    assert(spec_apply_sources(acc0, sv) is None);
                    assert(spec_merged(
                        view_of_layer(defaults@),
                        view_of_sources(sources@),
                        view_of_layer(overrides@),
                    ) is None);
                    assert(spec_sources_error(cache@, sv.skip(i as int)) == Some(
                        ErrorView::SourceError { uri: sv[i as int].uri, message: m@ },
                    ));
                }
                let uri = match &src.uri {
                    Some(u) => Some(u.clone()),
                    None => None,
                };
                let err = ConfigError::SourceError { uri, message: m.clone() };
                proof {
                    assert(err@ == (ErrorView::SourceError {
                        uri: sv[i as int].uri,
                        message: m@,
                    }));
                    assert(spec_refresh_error(view_of_layer(defaults@), sv) == Some(err@));
                }
                return Err(err);
            },
            Ok(pairs) => {
                proof {
                    broadcast use group_value_views;
                    broadcast use group_config_views;

                }
                let ghost pv = view_of_entries(pairs@);
                let ghost acc_src = cache@;
                proof {
                    assert(pv.skip(0) =~= pv);
                }
                let m = pairs.len();
                let mut j: usize = 0;
                while j < m
                    invariant
                        j <= m,
                        m == pairs@.len(),
                        pv == view_of_entries(pairs@),
                        pv.len() == m,
                        i < n,
                        n == sources@.len(),
                        sv == view_of_sources(sources@),
                        sv.len() == n,
                        sv[i as int].outcome == Ok::<Seq<(Seq<char>, ValueView)>, Seq<char>>(pv),
                        acc0 == spec_apply_layer(empty_table_view(), view_of_layer(defaults@)),
                        spec_apply_sources(acc_src, sv.skip(i as int)) == spec_apply_sources(
                            acc0,
                            sv,
                        ),
                        spec_apply_sources(acc0, sv) is None ==> spec_sources_error(
                            acc_src,
                            sv.skip(i as int),
                        ) == spec_sources_error(acc0, sv),
                        spec_apply_pairs(cache@, pv.skip(j as int)) == spec_apply_pairs(
                            acc_src,
                            pv,
                        ),
                        spec_apply_pairs(acc_src, pv) is None ==> spec_pairs_error(
                            cache@,
                            pv.skip(j as int),
                        ) == spec_pairs_error(acc_src, pv),
                    decreases m - j,
                {
                    proof {
                        broadcast use group_value_views;
                        broadcast use group_config_views;

                        assert(pv.skip(j as int)[0] == pv[j as int]);
                        assert(pv[j as int] == (pairs@[j as int].0@, view_of_value(
                            pairs@[j as int].1,
                        )));
                        assert(pv.skip(j as int).drop_first() =~= pv.skip(j as int + 1));
                    }
                    let pair = &pairs[j];
                    let lower = to_ascii_lowercase(pair.0.as_str());
                    match Expression::parse(lower.as_str()) {
                        Err(e) => {
                            proof {
                                assert(spec_parse_expr(ascii_lower(pv[j as int].0)) is None);
                                assert(spec_apply_pairs(cache@, pv.skip(j as int)) is None);
                                assert(spec_apply_pairs(acc_src, pv) is None);
                                assert(sv.skip(i as int)[0] == sv[i as int]);
                                assert(spec_apply_sources(acc_src, sv.skip(i as int)) is None);
                                assert(spec_apply_sources(acc0, sv) is None);
                                assert(spec_merged(
                                    view_of_layer(defaults@),
                                    view_of_sources(sources@),
                                    view_of_layer(overrides@),
                                ) is None);
                                assert(lower@ == ascii_lower(pv[j as int].0));
                                assert(spec_pairs_error(cache@, pv.skip(j as int)) == e@);
                                assert(spec_pairs_error(acc_src, pv) == e@);
                                assert(spec_sources_error(acc_src, sv.skip(i as int)) == Some(e@));
                                assert(spec_refresh_error(view_of_layer(defaults@), sv) == Some(
                                    e@,
                                ));
                            }
                            return Err(e);
                        },
                        Ok(expr) => {
                            let ghost steps_v = expr@;
                            let mut flat: Vec<(Expression, Value)> = Vec::new();
                            flatten_into(expr.steps, &pair.1, &mut flat);
                            apply_layer(&mut cache, &flat);
                            proof {
                                assert(view_of_layer(flat@) =~= spec_flatten(
                                    steps_v,
                                    pv[j as int].1,
                                ));
                            }
                        },
                    }
                    j = j + 1;
                }
                proof {
                    assert(pv.skip(m as int) =~= Seq::<(Seq<char>, ValueView)>::empty());
                }
            },
        }
        i = i + 1;
    }
    proof {
        assert(sv.skip(n as int) =~= Seq::<SourceView>::empty());
        assert(spec_apply_sources(cache@, sv.skip(n as int)) == Some(cache@));
    }
    let ghost pre_overrides = cache@;
    apply_layer(&mut cache, overrides);
    proof {
        assert(spec_apply_sources(acc0, sv) == Some(pre_overrides));
        assert(spec_merged(
            view_of_layer(defaults@),
            view_of_sources(sources@),
            view_of_layer(overrides@),
        ) == Some(cache@));
    }
    Ok(cache)
}

proof fn lemma_layer_insert_prefix(lv: LayerView, e: Seq<StepView>, v: ValueView, n: int)
    requires
        0 <= n <= lv.len(),
        forall|i: int| 0 <= i < n ==> lv[i].0 != e,
    ensures
        spec_layer_insert(lv, e, v) == lv.take(n) + spec_layer_insert(lv.skip(n), e, v),
    decreases n,
{
    if n == 0 {
        assert(lv.skip(0) =~= lv);
        assert(lv.take(0) + spec_layer_insert(lv, e, v) =~= spec_layer_insert(lv, e, v));
    } else {
        assert(lv.drop_first() =~= lv.skip(1));
        lemma_layer_insert_prefix(lv.drop_first(), e, v, n - 1);
        assert(lv.drop_first().skip(n - 1) =~= lv.skip(n));
        assert(lv.drop_first().take(n - 1) =~= lv.take(n).drop_first());
        assert(seq![lv[0]] + (lv.take(n).drop_first() + spec_layer_insert(lv.skip(n), e, v))
            =~= lv.take(n) + spec_layer_insert(lv.skip(n), e, v));
    }
}

fn layer_insert(layer: &mut Vec<(Expression, Value)>, e: Expression, v: Value)
    ensures
        view_of_layer(final(layer)@) == spec_layer_insert(view_of_layer(old(layer)@), e@, v@),
{
    broadcast use group_config_views;

    let ghost lv = view_of_layer(old(layer)@);
    let n = layer.len();
    let mut i: usize = 0;
    while i < n
        invariant
            i <= n,
            n == layer@.len(),
            layer@ == old(layer)@,
            lv == view_of_layer(layer@),
            lv.len() == n,
            forall|j: int| 0 <= j < i ==> lv[j].0 != e@,
        decreases n - i,
    {
        proof {
            broadcast use group_config_views;

            assert(lv[i as int] == (layer@[i as int].0@, view_of_value(layer@[i as int].1)));
        }
        if layer[i].0.eq_expr(&e) {
            proof {
                lemma_layer_insert_prefix(lv, e@, v@, i as int);
                assert(lv.skip(i as int)[0] == lv[i as int]);
                assert(spec_layer_insert(lv.skip(i as int), e@, v@) =~= seq![(e@, v@)] + lv.skip(
                    i as int,
                ).drop_first());
            }
            layer[i] = (e, v);
            proof {
                broadcast use group_config_views;

                assert(view_of_layer(layer@) =~= lv.take(i as int) + (seq![(e@, v@)] + lv.skip(
                    i as int,
                ).drop_first()));
            }
            return;
        }
        i = i + 1;
    }
    proof {
        lemma_layer_insert_prefix(lv, e@, v@, n as int);
        assert(lv.skip(n as int) =~= Seq::<(Seq<StepView>, ValueView)>::empty());
        assert(spec_layer_insert(lv.skip(n as int), e@, v@) =~= seq![(e@, v@)]);
    }
    layer.push((e, v));
    proof {
        broadcast use group_config_views;

        assert(view_of_layer(layer@) =~= lv.take(n as int) + seq![(e@, v@)]);
    }
}

// ---------------------------------------------------------------------
// Mutation
// ---------------------------------------------------------------------

/// How one `merge` call relates a store's states: a frozen store never
/// changes; a mutable store appends the source and recomputes.
pub open spec fn spec_merge_op(pre: ConfigView, post: ConfigView, ok: bool, src: SourceView) -> bool {
    match pre.kind {
        ConfigKindView::Frozen => post == pre && !ok,
        ConfigKindView::Mutable { defaults, overrides, sources } => spec_refreshed(
            ConfigView {
                kind: ConfigKindView::Mutable { defaults, overrides, sources: sources.push(src) },
                cache: pre.cache,
            },
            post,
            ok,
        ),
    }
}

/// How one `set` call relates a store's states: a frozen store never
/// changes, an unparseable key changes nothing, and otherwise the
/// binding lands in the overrides layer and the store recomputes.
pub open spec fn spec_set_op(
    pre: ConfigView,
    post: ConfigView,
    ok: bool,
    key: Seq<char>,
    v: ValueView,
) -> bool {
    match pre.kind {
        ConfigKindView::Frozen => post == pre && !ok,
        ConfigKindView::Mutable { defaults, overrides, sources } => match spec_parse_expr(
            ascii_lower(key),
        ) {
            None => post == pre && !ok,
            Some(steps) => spec_refreshed(
                ConfigView {
                    kind: ConfigKindView::Mutable {
                        defaults,
                        overrides: spec_layer_insert(overrides, steps, v),
                        sources,
                    },
                    cache: pre.cache,
                },
                post,
                ok,
            ),
        },
    }
}

/// How one `set_default` call relates a store's states: as `spec_set_op`,
/// but the binding lands in the defaults layer.
pub open spec fn spec_set_default_op(
    pre: ConfigView,
    post: ConfigView,
    ok: bool,
    key: Seq<char>,
    v: ValueView,
) -> bool {
    match pre.kind {
        ConfigKindView::Frozen => post == pre && !ok,
        ConfigKindView::Mutable { defaults, overrides, sources } => match spec_parse_expr(
            ascii_lower(key),
        ) {
            None => post == pre && !ok,
            Some(steps) => spec_refreshed(
                ConfigView {
                    kind: ConfigKindView::Mutable {
                        defaults: spec_layer_insert(defaults, steps, v),
                        overrides,
                        sources,
                    },
                    cache: pre.cache,
                },
                post,
                ok,
            ),
        },
    }
}

/// The outcome of a mutating call: the error that stopped it, or the
/// store as it stands afterwards. Chained mutations operate on the held
/// store; once a step fails, that store is dropped and only the error
/// travels on — unlike calling the mutators on a store directly, which
/// keeps the store (with its layers as mutated) alongside the error.
pub struct ConfigResult(pub(crate) Result<Config, ConfigError>);

impl View for ConfigResult {
    type V = Result<ConfigView, ErrorView>;

    open(crate) spec fn view(&self) -> Result<ConfigView, ErrorView> {
        match self.0 {
            Ok(ref c) => Ok(c@),
            Err(ref e) => Err(e@),
        }
    }
}

impl Config {
    /// Recomputes the cache from the three layers: an empty table, then
    /// the defaults, then every source in insertion order, then the
    /// overrides. Succeeds exactly when every source contributes cleanly;
    /// on any failure the previous cache stays in place.
    pub fn refresh(&mut self) -> (r: ConfigResult)
        ensures
            spec_refreshed(old(self)@, final(self)@, r@ is Ok),
            r@ matches Ok(c) ==> c == final(self)@,
            old(self)@.kind is Frozen ==> r@ == Err::<ConfigView, ErrorView>(ErrorView::Frozen),
            !(old(self)@.kind is Frozen) ==> match r@ {
                Err(e) => e matches ErrorView::SourceError { .. } || e
                    matches ErrorView::ParseError { .. },
                Ok(_) => true,
            },
            match old(self)@.kind {
                ConfigKindView::Frozen => true,
                ConfigKindView::Mutable { defaults, overrides, sources } => match r@ {
                    Err(e) => spec_refresh_error(defaults, sources) == Some(e),
                    Ok(_) => true,
                },
            },
    {
        let result = match &self.kind {
            ConfigKind::Frozen => {
                return ConfigResult(Err(ConfigError::Frozen));
            },
            ConfigKind::Mutable { defaults, overrides, sources } => {
                rebuild(defaults, sources, overrides)
            },
        };
        match result {
            Ok(cache) => {
                self.cache = cache;
                ConfigResult(Ok(self.clone()))
            },
            Err(e) => ConfigResult(Err(e)),
        }
    }

    /// Merge in a configuration property source, then recompute the
    /// cache. Fails if the store is frozen or a source fails; a failed
    /// recomputation keeps the source but leaves the cache untouched.
    pub fn merge(&mut self, source: Source) -> (r: ConfigResult)
        ensures
            spec_merge_op(old(self)@, final(self)@, r@ is Ok, source@),
            r@ matches Ok(c) ==> c == final(self)@,
            match r@ {
                Err(e) => e matches ErrorView::Frozen || e matches ErrorView::SourceError { .. }
                    || e matches ErrorView::ParseError { .. },
                Ok(_) => true,
            },
            old(self)@.kind is Frozen ==> r@ == Err::<ConfigView, ErrorView>(ErrorView::Frozen),
            !(old(self)@.kind is Frozen) ==> match r@ {
                Err(e) => e matches ErrorView::SourceError { .. } || e
                    matches ErrorView::ParseError { .. },
                Ok(_) => true,
            },
    {
        let ghost src_v = source@;
        let mut k = ConfigKind::Frozen;
        core::mem::swap(&mut self.kind, &mut k);
        match k {
            ConfigKind::Frozen => {
                return ConfigResult(Err(ConfigError::Frozen));
            },
            ConfigKind::Mutable { defaults, overrides, mut sources } => {
                let ghost sv0 = sources@;
                sources.push(source);
                proof {
                    assert(sources@.drop_last() =~= sv0);
                    assert(view_of_sources(sources@) =~= view_of_sources(sv0).push(src_v));
                }
                self.kind = ConfigKind::Mutable { defaults, overrides, sources };
            },
        }
        self.refresh()
    }

    /// Binds `key` (lower-cased, then parsed) to `value` in the defaults
    /// layer — the layer everything else beats — then recomputes the
    /// cache. Fails if the store is frozen or the key does not parse.
    pub fn set_default(&mut self, key: &str, value: Value) -> (r: ConfigResult)
        ensures
            spec_set_default_op(old(self)@, final(self)@, r@ is Ok, key@, value@),
            r@ matches Ok(c) ==> c == final(self)@,
            match r@ {
                Err(e) => e matches ErrorView::Frozen || e matches ErrorView::SourceError { .. }
                    || e matches ErrorView::ParseError { .. },
                Ok(_) => true,
            },
            old(self)@.kind is Frozen ==> r@ == Err::<ConfigView, ErrorView>(ErrorView::Frozen),
            match old(self)@.kind {
                ConfigKindView::Frozen => true,
                ConfigKindView::Mutable { defaults, overrides, sources } => match spec_parse_expr(
                    ascii_lower(key@),
                ) {
                    None => r@ == Err::<ConfigView, ErrorView>(
                        ErrorView::ParseError {
                            fragment: ascii_lower(key@).skip(
                                crate::path::spec_parse_key_errpos(ascii_lower(key@), 0),
                            ),
                        },
                    ),
                    Some(steps) => match r@ {
                        Err(e) => spec_refresh_error(
                            spec_layer_insert(defaults, steps, value@),
                            sources,
                        ) == Some(e),
                        Ok(_) => true,
                    },
                },
            },
    {
        let lower = to_ascii_lowercase(key);
        let mut k = ConfigKind::Frozen;
        core::mem::swap(&mut self.kind, &mut k);
        match k {
            ConfigKind::Frozen => {
                return ConfigResult(Err(ConfigError::Frozen));
            },
            ConfigKind::Mutable { mut defaults, overrides, sources } => {
                match Expression::parse(lower.as_str()) {
                    Err(e) => {
                        self.kind = ConfigKind::Mutable { defaults, overrides, sources };
                        return ConfigResult(Err(e));
                    },
                    Ok(expr) => {
                        layer_insert(&mut defaults, expr, value);
                        self.kind = ConfigKind::Mutable { defaults, overrides, sources };
                    },
                }
            },
        }
        self.refresh()
    }

    /// Binds `key` (lower-cased, then parsed) to `value` in the overrides
    /// layer — the layer that beats everything — then recomputes the
    /// cache. Fails if the store is frozen or the key does not parse.
    pub fn set(&mut self, key: &str, value: Value) -> (r: ConfigResult)
        ensures
            spec_set_op(old(self)@, final(self)@, r@ is Ok, key@, value@),
            r@ matches Ok(c) ==> c == final(self)@,
            match r@ {
                Err(e) => e matches ErrorView::Frozen || e matches ErrorView::SourceError { .. }
                    || e matches ErrorView::ParseError { .. },
                Ok(_) => true,
            },
            old(self)@.kind is Frozen ==> r@ == Err::<ConfigView, ErrorView>(ErrorView::Frozen),
            match old(self)@.kind {
                ConfigKindView::Frozen => true,
                ConfigKindView::Mutable { defaults, overrides, sources } => match spec_parse_expr(
                    ascii_lower(key@),
                ) {
                    None => r@ == Err::<ConfigView, ErrorView>(
                        ErrorView::ParseError {
                            fragment: ascii_lower(key@).skip(
                                crate::path::spec_parse_key_errpos(ascii_lower(key@), 0),
                            ),
                        },
                    ),
                    Some(_) => match r@ {
                        Err(e) => spec_refresh_error(defaults, sources) == Some(e),
                        Ok(_) => true,
                    },
                },
            },
    {
        let lower = to_ascii_lowercase(key);
        let mut k = ConfigKind::Frozen;
        core::mem::swap(&mut self.kind, &mut k);
        match k {
            ConfigKind::Frozen => {
                return ConfigResult(Err(ConfigError::Frozen));
            },
            ConfigKind::Mutable { defaults, mut overrides, sources } => {
                match Expression::parse(lower.as_str()) {
                    Err(e) => {
                        self.kind = ConfigKind::Mutable { defaults, overrides, sources };
                        return ConfigResult(Err(e));
                    },
                    Ok(expr) => {
                        layer_insert(&mut overrides, expr, value);
                        self.kind = ConfigKind::Mutable { defaults, overrides, sources };
                    },
                }
            },
        }
        self.refresh()
    }
}

// ---------------------------------------------------------------------
// Reading
// ---------------------------------------------------------------------

/// Whether `r` is the keyed `InvalidType` error a coercion of the found
/// value `v` to the shape `expected` produces through the key `key`.
pub open spec fn spec_keyed_invalid<T>(
    r: Result<T, ConfigError>,
    v: ValueView,
    expected: Seq<char>,
    key: Seq<char>,
) -> bool {
    match r {
        Err(e) => e@ == (ErrorView::InvalidType {
            origin: v.origin,
            unexpected: spec_type_name(v.kind),
            expected,
            key: Some(key),
        }),
        Ok(_) => false,
    }
}

/// A value paired with the key string that addressed it, so that a
/// failing coercion can name the path it was reached through.
pub struct ValueWithKey<'a>(pub Value, pub &'a str);

impl<'a> ValueWithKey<'a> {
    /// Pairs a value with the key that addressed it.
    pub fn new(value: Value, key: &'a str) -> (r: ValueWithKey<'a>)
        ensures
            r.0@ == value@,
            r.1@ == key@,
    {
        ValueWithKey(value, key)
    }

    /// As `Value::into_bool`, with the key attached to any failure.
    pub fn into_bool(self) -> (r: Result<bool, ConfigError>)
        ensures
            match self.0@.kind {
                KindView::Boolean(b) => r == Ok::<bool, ConfigError>(b),
                KindView::Integer(i) => r == Ok::<bool, ConfigError>(i != 0),
                KindView::Float(f) => r == Ok::<bool, ConfigError>(!f.is_zero),
                KindView::String(s) => if spec_is_true_word(s) {
                    r == Ok::<bool, ConfigError>(true)
                } else if spec_is_false_word(s) {
                    r == Ok::<bool, ConfigError>(false)
                } else {
                    spec_keyed_invalid(r, self.0@, "a boolean"@, self.1@)
                },
                _ => spec_keyed_invalid(r, self.0@, "a boolean"@, self.1@),
            },
    {
        match self.0.into_bool() {
            Ok(value) => Ok(value),
            Err(error) => Err(error.extend_with_key(self.1)),
        }
    }

    /// As `Value::into_int`, with the key attached to any failure.
    pub fn into_int(self) -> (r: Result<i64, ConfigError>)
        ensures
            match self.0@.kind {
                KindView::Integer(i) => r matches Ok(v) && v as int == i,
                KindView::Boolean(b) => r == Ok::<i64, ConfigError>(
                    if b {
                        1
                    } else {
                        0
                    },
                ),
                KindView::Float(f) => r matches Ok(v) && v as int == f.rounded,
                KindView::String(s) => if spec_is_true_word(s) {
                    r matches Ok(v) && v as int == 1
                } else if spec_is_false_word(s) {
                    r matches Ok(v) && v as int == 0
                } else if spec_is_int_literal(s) {
                    r matches Ok(v) && v as int == spec_int_value(s)
                } else {
                    spec_keyed_invalid(r, self.0@, "an integer"@, self.1@)
                },
                _ => spec_keyed_invalid(r, self.0@, "an integer"@, self.1@),
            },
    {
        match self.0.into_int() {
            Ok(value) => Ok(value),
            Err(error) => Err(error.extend_with_key(self.1)),
        }
    }

    /// As `Value::into_str`, with the key attached to any failure.
    pub fn into_str(self) -> (r: Result<String, ConfigError>)
        ensures
            match self.0@.kind {
                KindView::String(s) => r matches Ok(x) && x@ == s,
                KindView::Boolean(b) => r matches Ok(x) && x@ == (if b {
                    "true"@
                } else {
                    "false"@
                }),
                KindView::Integer(i) => r matches Ok(x) && x@ == spec_int_text(i),
                KindView::Float(f) => r matches Ok(x) && x@ == f.text,
                _ => spec_keyed_invalid(r, self.0@, "a string"@, self.1@),
            },
    {
        match self.0.into_str() {
            Ok(value) => Ok(value),
            Err(error) => Err(error.extend_with_key(self.1)),
        }
    }

    /// As `Value::into_array`, with the key attached to any failure.
    pub fn into_array(self) -> (r: Result<Vec<Value>, ConfigError>)
        ensures
            match self.0@.kind {
                KindView::Array(vs) => r matches Ok(out) && view_of_values(out@) == vs,
                _ => spec_keyed_invalid(r, self.0@, "an array"@, self.1@),
            },
    {
        match self.0.into_array() {
            Ok(value) => Ok(value),
            Err(error) => Err(error.extend_with_key(self.1)),
        }
    }

    /// As `Value::into_tree`, with the key attached to any failure.
    pub fn into_tree(self) -> (r: Result<Config, ConfigError>)
        ensures
            match self.0@.kind {
                KindView::Table(es) => r matches Ok(c) && c@ == spec_config_from_table(es),
                _ => spec_keyed_invalid(r, self.0@, "a map"@, self.1@),
            },
    {
        match self.0.into_tree() {
            Ok(value) => Ok(value),
            Err(error) => Err(error.extend_with_key(self.1)),
        }
    }
}

/// The store a table converts to: the table itself as the cache, its
/// leaf bindings seeded into the overrides layer.
pub open spec fn spec_config_from_table(es: Seq<(Seq<char>, ValueView)>) -> ConfigView {
    ConfigView {
        kind: ConfigKindView::Mutable {
            defaults: Seq::empty(),
            overrides: spec_flatten(
                Seq::empty(),
                ValueView { origin: None, kind: KindView::Table(es) },
            ),
            sources: Seq::empty(),
        },
        cache: ValueView { origin: None, kind: KindView::Table(es) },
    }
}

impl Config {
    /// A store built directly from a pre-existing table, bypassing
    /// sources: the table becomes the cache as it stands, and its leaf
    /// bindings seed the overrides layer.
    pub fn from(map: Table) -> (r: Config)
        ensures
            r@ == spec_config_from_table(map@),
    {
        broadcast use group_config_views;

        let ghost mv = map@;
        let value = Value::new(None, ValueKind::Table(map));
        let mut overrides: Vec<(Expression, Value)> = Vec::new();
        let prefix: Vec<Step> = Vec::new();
        proof {
            assert(view_of_steps(prefix@) =~= Seq::<StepView>::empty());
            assert(view_of_layer(overrides@) =~= Seq::<(Seq<StepView>, ValueView)>::empty());
        }
        flatten_into(prefix, &value, &mut overrides);
        let r = Config {
            kind: ConfigKind::Mutable { defaults: Vec::new(), overrides, sources: Vec::new() },
            cache: value,
        };
        proof {
            assert(view_of_layer(Seq::<(Expression, Value)>::empty()) =~= Seq::<(
                Seq<StepView>,
                ValueView,
            )>::empty());
            assert(view_of_sources(Seq::<Source>::empty()) =~= Seq::<SourceView>::empty());
            assert(Seq::<(Seq<StepView>, ValueView)>::empty() + spec_flatten(
                Seq::<StepView>::empty(),
                ValueView { origin: None, kind: KindView::Table(mv) },
            ) =~= spec_flatten(
                Seq::<StepView>::empty(),
                ValueView { origin: None, kind: KindView::Table(mv) },
            ));
        }
        r
    }

    /// Parses `key` (lower-cased), walks the cache, and hands back a copy
    /// of the value found there; a missing value is `NotFound`, an
    /// unparseable key a `ParseError`.
    pub fn get(&self, key: &str) -> (r: Result<Value, ConfigError>)
        ensures
            match spec_parse_expr(ascii_lower(key@)) {
                None => match r {
                    Err(e) => e@ matches ErrorView::ParseError { .. },
                    Ok(_) => false,
                },
                Some(steps) => match spec_read(self@.cache, steps) {
                    Some(v) => r matches Ok(out) && out@ == v,
                    None => match r {
                        Err(e) => e@ == (ErrorView::NotFound { key: key@ }),
                        Ok(_) => false,
                    },
                },
            },
    {
        let lower = to_ascii_lowercase(key);
        match Expression::parse(lower.as_str()) {
            Err(e) => Err(e),
            Ok(expr) => match expr.get(&self.cache) {
                Some(v) => Ok(v.clone()),
                None => Err(ConfigError::NotFound { key: key.to_owned() }),
            },
        }
    }

    /// `get`, then the value read as a string.
    pub fn get_str(&self, key: &str) -> (r: Result<String, ConfigError>)
        ensures
            match spec_parse_expr(ascii_lower(key@)) {
                None => match r {
                    Err(e) => e@ matches ErrorView::ParseError { .. },
                    Ok(_) => false,
                },
                Some(steps) => match spec_read(self@.cache, steps) {
                    None => match r {
                        Err(e) => e@ == (ErrorView::NotFound { key: key@ }),
                        Ok(_) => false,
                    },
                    Some(v) => match v.kind {
                        KindView::String(s) => r matches Ok(x) && x@ == s,
                        KindView::Boolean(b) => r matches Ok(x) && x@ == (if b {
                            "true"@
                        } else {
                            "false"@
                        }),
                        KindView::Integer(i) => r matches Ok(x) && x@ == spec_int_text(i),
                        KindView::Float(f) => r matches Ok(x) && x@ == f.text,
                        _ => spec_keyed_invalid(r, v, "a string"@, key@),
                    },
                },
            },
    {
        match self.get(key) {
            Err(e) => Err(e),
            Ok(value) => ValueWithKey::new(value, key).into_str(),
        }
    }

    /// `get`, then the value read as a 64-bit integer.
    pub fn get_int(&self, key: &str) -> (r: Result<i64, ConfigError>)
        ensures
            match spec_parse_expr(ascii_lower(key@)) {
                None => match r {
                    Err(e) => e@ matches ErrorView::ParseError { .. },
                    Ok(_) => false,
                },
                Some(steps) => match spec_read(self@.cache, steps) {
                    None => match r {
                        Err(e) => e@ == (ErrorView::NotFound { key: key@ }),
                        Ok(_) => false,
                    },
                    Some(v) => match v.kind {
                        KindView::Integer(i) => r matches Ok(x) && x as int == i,
                        KindView::Boolean(b) => r == Ok::<i64, ConfigError>(
                            if b {
                                1
                            } else {
                                0
                            },
                        ),
                        KindView::Float(f) => r matches Ok(x) && x as int == f.rounded,
                        KindView::String(s) => if spec_is_true_word(s) {
                            r matches Ok(x) && x as int == 1
                        } else if spec_is_false_word(s) {
                            r matches Ok(x) && x as int == 0
                        } else if spec_is_int_literal(s) {
                            r matches Ok(x) && x as int == spec_int_value(s)
                        } else {
                            spec_keyed_invalid(r, v, "an integer"@, key@)
                        },
                        _ => spec_keyed_invalid(r, v, "an integer"@, key@),
                    },
                },
            },
    {
        match self.get(key) {
            Err(e) => Err(e),
            Ok(value) => ValueWithKey::new(value, key).into_int(),
        }
    }

    /// `get`, then the value read as a boolean.
    pub fn get_bool(&self, key: &str) -> (r: Result<bool, ConfigError>)
        ensures
            match spec_parse_expr(ascii_lower(key@)) {
                None => match r {
                    Err(e) => e@ matches ErrorView::ParseError { .. },
                    Ok(_) => false,
                },
                Some(steps) => match spec_read(self@.cache, steps) {
                    None => match r {
                        Err(e) => e@ == (ErrorView::NotFound { key: key@ }),
                        Ok(_) => false,
                    },
                    Some(v) => match v.kind {
                        KindView::Boolean(b) => r == Ok::<bool, ConfigError>(b),
                        KindView::Integer(i) => r == Ok::<bool, ConfigError>(i != 0),
                        KindView::Float(f) => r == Ok::<bool, ConfigError>(!f.is_zero),
                        KindView::String(s) => if spec_is_true_word(s) {
                            r == Ok::<bool, ConfigError>(true)
                        } else if spec_is_false_word(s) {
                            r == Ok::<bool, ConfigError>(false)
                        } else {
                            spec_keyed_invalid(r, v, "a boolean"@, key@)
                        },
                        _ => spec_keyed_invalid(r, v, "a boolean"@, key@),
                    },
                },
            },
    {
        match self.get(key) {
            Err(e) => Err(e),
            Ok(value) => ValueWithKey::new(value, key).into_bool(),
        }
    }

    /// `get`, then the value read as an array.
    pub fn get_array(&self, key: &str) -> (r: Result<Vec<Value>, ConfigError>)
        ensures
            match spec_parse_expr(ascii_lower(key@)) {
                None => match r {
                    Err(e) => e@ matches ErrorView::ParseError { .. },
                    Ok(_) => false,
                },
                Some(steps) => match spec_read(self@.cache, steps) {
                    None => match r {
                        Err(e) => e@ == (ErrorView::NotFound { key: key@ }),
                        Ok(_) => false,
                    },
                    Some(v) => match v.kind {
                        KindView::Array(vs) => r matches Ok(out) && view_of_values(out@) == vs,
                        _ => spec_keyed_invalid(r, v, "an array"@, key@),
                    },
                },
            },
    {
        match self.get(key) {
            Err(e) => Err(e),
            Ok(value) => ValueWithKey::new(value, key).into_array(),
        }
    }

    /// `get`, then the value read as a subtree: a found table becomes a
    /// store of its own.
    pub fn get_tree(&self, key: &str) -> (r: Result<Config, ConfigError>)
        ensures
            match spec_parse_expr(ascii_lower(key@)) {
                None => match r {
                    Err(e) => e@ matches ErrorView::ParseError { .. },
                    Ok(_) => false,
                },
                Some(steps) => match spec_read(self@.cache, steps) {
                    None => match r {
                        Err(e) => e@ == (ErrorView::NotFound { key: key@ }),
                        Ok(_) => false,
                    },
                    Some(v) => match v.kind {
                        KindView::Table(es) => r matches Ok(c) && c@ == spec_config_from_table(es),
                        _ => spec_keyed_invalid(r, v, "a map"@, key@),
                    },
                },
            },
    {
        match self.get(key) {
            Err(e) => Err(e),
            Ok(value) => ValueWithKey::new(value, key).into_tree(),
        }
    }
}

impl Value {
    /// Reads the value as a subtree: a table is rewrapped as a store
    /// whose overrides layer is seeded with one binding per leaf path;
    /// everything else fails.
    pub fn into_tree(self) -> (r: Result<Config, ConfigError>)
        ensures
            match self@.kind {
                KindView::Table(es) => r matches Ok(c) && c@ == spec_config_from_table(es),
                _ => crate::value::spec_invalid_type_err(r, self@.origin, self@.kind, "a map"@),
            },
    {
        let Value { origin, kind } = self;
        match kind {
            ValueKind::Table(map) => Ok(Config::from(map)),
            kind => {
                let name = crate::value::kind_name_of(&kind);
                Err(crate::value::invalid_type_error(&origin, name, "a map"))
            },
        }
    }
}

// ---------------------------------------------------------------------
// Chaining over mutation outcomes
// ---------------------------------------------------------------------

impl ConfigResult {
    /// Forwards `merge` to the held store; an earlier error passes
    /// through. The chained call succeeds exactly when the store
    /// operation does, and a successful result holds the store that
    /// operation produced. On failure the mutated store is dropped —
    /// unlike `Config::merge`, which keeps the (failing) source appended.
    pub fn merge(self, source: Source) -> (r: ConfigResult)
        ensures
            match self@ {
                Err(e) => r@ == Err::<ConfigView, ErrorView>(e),
                Ok(c) => {
                    &&& (exists|p: ConfigView|
                        #[trigger] spec_merge_op(c, p, r@ is Ok, source@) && (r@ matches Ok(q)
                            ==> q == p))
                    &&& match r@ {
                        Err(e2) => e2 matches ErrorView::Frozen || e2
                            matches ErrorView::SourceError { .. } || e2
                            matches ErrorView::ParseError { .. },
                        Ok(_) => true,
                    }
                },
            },
    {
        match self.0 {
            Ok(mut instance) => {
                let ghost pre = instance@;
                let ghost src_v = source@;
                let r = instance.merge(source);
                proof {
                    assert(spec_merge_op(pre, instance@, r@ is Ok, src_v));
                }
                r
            },
            Err(e) => ConfigResult(Err(e)),
        }
    }

    /// Forwards `set_default` to the held store; an earlier error passes
    /// through. The chained call succeeds exactly when the store
    /// operation does, and a successful result holds the store that
    /// operation produced; on failure the mutated store is dropped.
    pub fn set_default(self, key: &str, value: Value) -> (r: ConfigResult)
        ensures
            match self@ {
                Err(e) => r@ == Err::<ConfigView, ErrorView>(e),
                Ok(c) => {
                    &&& (exists|p: ConfigView|
                        #[trigger] spec_set_default_op(c, p, r@ is Ok, key@, value@) && (r@
                            matches Ok(q) ==> q == p))
                    &&& match r@ {
                        Err(e2) => e2 matches ErrorView::Frozen || e2
                            matches ErrorView::SourceError { .. } || e2
                            matches ErrorView::ParseError { .. },
                        Ok(_) => true,
                    }
                },
            },
    {
        match self.0 {
            Ok(mut instance) => {
                let ghost pre = instance@;
                let ghost v = value@;
                let r = instance.set_default(key, value);
                proof {
                    assert(spec_set_default_op(pre, instance@, r@ is Ok, key@, v));
                }
                r
            },
            Err(e) => ConfigResult(Err(e)),
        }
    }

    /// Forwards `set` to the held store; an earlier error passes through.
    /// The chained call succeeds exactly when the store operation does,
    /// and a successful result holds the store that operation produced;
    /// on failure the mutated store is dropped.
    pub fn set(self, key: &str, value: Value) -> (r: ConfigResult)
        ensures
            match self@ {
                Err(e) => r@ == Err::<ConfigView, ErrorView>(e),
                Ok(c) => {
                    &&& (exists|p: ConfigView|
                        #[trigger] spec_set_op(c, p, r@ is Ok, key@, value@) && (r@ matches Ok(q)
                            ==> q == p))
                    &&& match r@ {
                        Err(e2) => e2 matches ErrorView::Frozen || e2
                            matches ErrorView::SourceError { .. } || e2
                            matches ErrorView::ParseError { .. },
                        Ok(_) => true,
                    }
                },
            },
    {
        match self.0 {
            Ok(mut instance) => {
                let ghost pre = instance@;
                let ghost v = value@;
                let r = instance.set(key, value);
                proof {
                    assert(spec_set_op(pre, instance@, r@ is Ok, key@, v));
                }
                r
            },
            Err(e) => ConfigResult(Err(e)),
        }
    }

    /// Whether the mutation succeeded.
    pub fn is_ok(&self) -> (r: bool)
        ensures
            r == (self@ is Ok),
    {
        match self.0 {
            Ok(_) => true,
            Err(_) => false,
        }
    }

    /// Whether the mutation failed.
    pub fn is_err(&self) -> (r: bool)
        ensures
            r == (self@ is Err),
    {
        !self.is_ok()
    }

    /// The store after a successful mutation, if any.
    pub fn ok(self) -> (r: Option<Config>)
        ensures
            match self@ {
                Ok(c) => r matches Some(x) && x@ == c,
                Err(_) => r is None,
            },
    {
        match self.0 {
            Ok(x) => Some(x),
            Err(_) => None,
        }
    }

    /// The error of a failed mutation, if any.
    pub fn err(self) -> (r: Option<ConfigError>)
        ensures
            match self@ {
                Ok(_) => r is None,
                Err(e) => r matches Some(x) && x@ == e,
            },
    {
        match self.0 {
            Ok(_) => None,
            Err(x) => Some(x),
        }
    }

    /// The store after a mutation known to have succeeded.
    pub fn unwrap(self) -> (r: Config)
        requires
            self@ is Ok,
        ensures
            self@ matches Ok(c) && r@ == c,
    {
        match self.0 {
            Ok(instance) => instance,
            Err(_) => unreached(),
        }
    }

    /// As `unwrap`; the message would only be used on a failure, which
    /// the caller rules out.
    pub fn expect(self, msg: &str) -> (r: Config)
        requires
            self@ is Ok,
        ensures
            self@ matches Ok(c) && r@ == c,
    {
        let _ = msg;
        match self.0 {
            Ok(instance) => instance,
            Err(_) => unreached(),
        }
    }

    /// The error of a mutation known to have failed.
    pub fn unwrap_err(self) -> (r: ConfigError)
        requires
            self@ is Err,
        ensures
            self@ matches Err(e) && r@ == e,
    {
        match self.0 {
            Ok(_) => unreached(),
            Err(e) => e,
        }
    }

    /// As `unwrap_err`; the message would only be used on a success,
    /// which the caller rules out.
    pub fn expect_err(self, msg: &str) -> (r: ConfigError)
        requires
            self@ is Err,
        ensures
            self@ matches Err(e) && r@ == e,
    {
        let _ = msg;
        match self.0 {
            Ok(_) => unreached(),
            Err(e) => e,
        }
    }
}

// ---------------------------------------------------------------------
// Laws of the merge model
// ---------------------------------------------------------------------

/// The value a key resolves to in a store's cache, if the key parses and
/// the path is populated.
pub open spec fn spec_get_value(c: ConfigView, key: Seq<char>) -> Option<ValueView> {
    match spec_parse_expr(ascii_lower(key)) {
        Some(steps) => spec_read(c.cache, steps),
        None => None,
    }
}

/// Recomputing twice in a row without an intervening mutation yields an
/// identical cache: the merged tree depends on the layers alone, and a
/// recomputation never changes them.
pub proof fn lemma_refresh_idempotent(c0: ConfigView, c1: ConfigView, c2: ConfigView)
    requires
        spec_refreshed(c0, c1, true),
        spec_refreshed(c1, c2, true),
    ensures
        c2.cache == c1.cache,
        c2.kind == c1.kind,
{
    match c0.kind {
        ConfigKindView::Frozen => {
            assert(false);
        },
        ConfigKindView::Mutable { defaults, overrides, sources } => {
            assert(c1.kind == c0.kind);
        },
    }
}

/// Appending one binding to a layer writes it last.
proof fn lemma_apply_layer_snoc(acc: ValueView, layer: LayerView, b: (Seq<StepView>, ValueView))
    ensures
        spec_apply_layer(acc, layer.push(b)) == spec_write(spec_apply_layer(acc, layer), b.0, b.1),
    decreases layer.len(),
{
    reveal_with_fuel(spec_apply_layer, 3);
    if layer.len() == 0 {
        assert(layer.push(b)[0] == b);
        assert(layer.push(b).drop_first() =~= Seq::<(Seq<StepView>, ValueView)>::empty());
    } else {
        assert(layer.push(b)[0] == layer[0]);
        assert(layer.push(b).drop_first() =~= layer.drop_first().push(b));
        lemma_apply_layer_snoc(spec_write(acc, layer[0].0, layer[0].1), layer.drop_first(), b);
    }
}

/// Setting a key and then reading it back finds the value just set,
/// whatever the other layers hold, provided the key is fresh among the
/// overrides (otherwise a later overlapping override could shadow it)
/// and the two key spellings agree up to ASCII case.
pub proof fn lemma_set_then_get(
    pre: ConfigView,
    post: ConfigView,
    set_key: Seq<char>,
    get_key: Seq<char>,
    v: ValueView,
)
    requires
        spec_set_op(pre, post, true, set_key, v),
        ascii_lower(get_key) == ascii_lower(set_key),
        match pre.kind {
            ConfigKindView::Mutable { overrides, .. } => match spec_parse_expr(
                ascii_lower(set_key),
            ) {
                Some(steps) => forall|i: int|
                    0 <= i < overrides.len() ==> (#[trigger] overrides[i]).0 != steps,
                None => true,
            },
            ConfigKindView::Frozen => true,
        },
    ensures
        spec_get_value(post, get_key) == Some(v),
{
    match pre.kind {
        ConfigKindView::Frozen => {
            assert(false);
        },
        ConfigKindView::Mutable { defaults, overrides, sources } => {
            match spec_parse_expr(ascii_lower(set_key)) {
                None => {
                    assert(false);
                },
                Some(steps) => {
                    crate::path::lemma_parse_key_wf(ascii_lower(set_key), 0);
                    let o2 = spec_layer_insert(overrides, steps, v);
                    lemma_layer_insert_prefix(overrides, steps, v, overrides.len() as int);
                    assert(overrides.skip(overrides.len() as int) =~= Seq::<(
                        Seq<StepView>,
                        ValueView,
                    )>::empty());
                    assert(o2 =~= overrides.push((steps, v)));
                    match spec_merged(defaults, sources, o2) {
                        None => {
                            assert(false);
                        },
                        Some(c) => {
                            assert(post.cache == c);
                            match spec_apply_sources(
                                spec_apply_layer(empty_table_view(), defaults),
                                sources,
                            ) {
                                None => {
                                    assert(false);
                                },
                                Some(a) => {
                                    lemma_apply_layer_snoc(a, overrides, (steps, v));
                                    assert(c == spec_write(
                                        spec_apply_layer(a, overrides),
                                        steps,
                                        v,
                                    ));
                                    lemma_write_read(spec_apply_layer(a, overrides), steps, v);
                                },
                            }
                        },
                    }
                },
            }
        },
    }
}

/// Precedence: with a default, a source contribution and an override all
/// bound at one key, a read sees the override; without the override it
/// sees the source's value; without the source it sees the default.
pub proof fn lemma_precedence(
    key: Seq<char>,
    steps: Seq<StepView>,
    d: ValueView,
    s: ValueView,
    o: ValueView,
    uri: Option<Seq<char>>,
)
    requires
        spec_parse_expr(ascii_lower(key)) == Some(steps),
        !(s.kind is Table),
        !(s.kind is Array),
    ensures
        spec_merged(seq![(steps, d)], seq![src_of(uri, key, s)], seq![(steps, o)]) matches Some(c)
            && spec_read(c, steps) == Some(o),
        spec_merged(seq![(steps, d)], seq![src_of(uri, key, s)], Seq::empty()) matches Some(c)
            && spec_read(c, steps) == Some(s),
        spec_merged(seq![(steps, d)], Seq::empty(), seq![(steps, o)]) matches Some(c) && spec_read(
            c,
            steps,
        ) == Some(o),
        spec_merged(seq![(steps, d)], Seq::empty(), Seq::empty()) matches Some(c) && spec_read(
            c,
            steps,
        ) == Some(d),
{
    reveal_with_fuel(spec_apply_layer, 3);
    reveal_with_fuel(spec_apply_pairs, 3);
    reveal_with_fuel(spec_apply_sources, 3);
    crate::path::lemma_parse_key_wf(ascii_lower(key), 0);
    let dl = seq![(steps, d)];
    let ol = seq![(steps, o)];
    let src = src_of(uri, key, s);
    let sl = seq![src];
    let pl = seq![(key, s)];
    assert(dl[0] == (steps, d));
    assert(dl.drop_first() =~= Seq::<(Seq<StepView>, ValueView)>::empty());
    let after_d = spec_write(empty_table_view(), steps, d);
    assert(spec_apply_layer(empty_table_view(), dl) == after_d);
    lemma_write_read(empty_table_view(), steps, d);
    // the single source applies its single pair: the scalar flattens to
    // one leaf binding at the parsed key
    assert(sl[0] == src);
    assert(sl.drop_first() =~= Seq::<SourceView>::empty());
    assert(pl[0] == (key, s));
    assert(pl.drop_first() =~= Seq::<(Seq<char>, ValueView)>::empty());
    assert(spec_flatten(steps, s) =~= seq![(steps, s)]);
    let fl = seq![(steps, s)];
    assert(fl[0] == (steps, s));
    assert(fl.drop_first() =~= Seq::<(Seq<StepView>, ValueView)>::empty());
    let after_s = spec_write(after_d, steps, s);
    assert(spec_apply_layer(after_d, fl) == after_s);
    assert(spec_apply_pairs(after_d, pl) == Some(after_s));
    assert(spec_apply_sources(after_d, sl) == Some(after_s));
    lemma_write_read(after_d, steps, s);
    assert(ol[0] == (steps, o));
    assert(ol.drop_first() =~= Seq::<(Seq<StepView>, ValueView)>::empty());
    lemma_write_read(after_s, steps, o);
    lemma_write_read(after_d, steps, o);
    assert(spec_apply_sources(after_d, Seq::empty()) == Some(after_d));
    assert(spec_apply_layer(after_s, Seq::empty()) == after_s);
    assert(spec_apply_layer(after_d, Seq::empty()) == after_d);
    assert(spec_apply_layer(after_s, ol) == spec_write(after_s, steps, o));
    assert(spec_apply_layer(after_d, ol) == spec_write(after_d, steps, o));
}

/// The one-pair source `lemma_precedence` speaks of.
pub open spec fn src_of(uri: Option<Seq<char>>, key: Seq<char>, s: ValueView) -> SourceView {
    SourceView { uri, outcome: Ok(seq![(key, s)]) }
}

/// Every leaf a value flattens to is a scalar or nil, hence well-formed.
proof fn lemma_flatten_wf(prefix: Seq<StepView>, v: ValueView)
    ensures
        forall|i: int|
            0 <= i < spec_flatten(prefix, v).len() ==> crate::value::wf_value(
                #[trigger] spec_flatten(prefix, v)[i].1,
            ),
    decreases v,
{
    match v.kind {
        KindView::Table(es) => {
            lemma_flatten_entries_wf(prefix, es);
            assert(spec_flatten(prefix, v) == spec_flatten_entries(prefix, es));
            assert forall|i: int|
                0 <= i < spec_flatten(prefix, v).len() implies crate::value::wf_value(
                #[trigger] spec_flatten(prefix, v)[i].1,
            ) by {
                assert(spec_flatten(prefix, v)[i] == spec_flatten_entries(prefix, es)[i]);
            }
        },
        KindView::Array(vs) => {
            lemma_flatten_items_wf(prefix, vs);
            assert(spec_flatten(prefix, v) == spec_flatten_items(prefix, vs));
            assert forall|i: int|
                0 <= i < spec_flatten(prefix, v).len() implies crate::value::wf_value(
                #[trigger] spec_flatten(prefix, v)[i].1,
            ) by {
                assert(spec_flatten(prefix, v)[i] == spec_flatten_items(prefix, vs)[i]);
            }
        },
        _ => {
            assert(spec_flatten(prefix, v) =~= seq![(prefix, v)]);
            assert(crate::value::wf_value(v));
            assert(spec_flatten(prefix, v)[0].1 == v);
        },
    }
}

proof fn lemma_flatten_entries_wf(prefix: Seq<StepView>, es: Seq<(Seq<char>, ValueView)>)
    ensures
        forall|i: int|
            0 <= i < spec_flatten_entries(prefix, es).len() ==> crate::value::wf_value(
                #[trigger] spec_flatten_entries(prefix, es)[i].1,
            ),
    decreases es,
{
    if es.len() > 0 {
        lemma_flatten_entries_wf(prefix, es.drop_last());
        lemma_flatten_wf(prefix.push(StepView::Key(es.last().0)), es.last().1);
        let a = spec_flatten_entries(prefix, es.drop_last());
        let b = spec_flatten(prefix.push(StepView::Key(es.last().0)), es.last().1);
        assert forall|i: int|
            0 <= i < spec_flatten_entries(prefix, es).len() implies crate::value::wf_value(
            #[trigger] spec_flatten_entries(prefix, es)[i].1,
        ) by {
            if i < a.len() {
                assert(spec_flatten_entries(prefix, es)[i] == a[i]);
            } else {
                assert(spec_flatten_entries(prefix, es)[i] == b[i - a.len()]);
            }
        }
    }
}

proof fn lemma_flatten_items_wf(prefix: Seq<StepView>, vs: Seq<ValueView>)
    ensures
        forall|i: int|
            0 <= i < spec_flatten_items(prefix, vs).len() ==> crate::value::wf_value(
                #[trigger] spec_flatten_items(prefix, vs)[i].1,
            ),
    decreases vs,
{
    if vs.len() > 0 {
        lemma_flatten_items_wf(prefix, vs.drop_last());
        lemma_flatten_wf(prefix.push(StepView::Index(vs.len() - 1)), vs.last());
        let a = spec_flatten_items(prefix, vs.drop_last());
        let b = spec_flatten(prefix.push(StepView::Index(vs.len() - 1)), vs.last());
        assert forall|i: int|
            0 <= i < spec_flatten_items(prefix, vs).len() implies crate::value::wf_value(
            #[trigger] spec_flatten_items(prefix, vs)[i].1,
        ) by {
            if i < a.len() {
                assert(spec_flatten_items(prefix, vs)[i] == a[i]);
            } else {
                assert(spec_flatten_items(prefix, vs)[i] == b[i - a.len()]);
            }
        }
    }
}

proof fn lemma_apply_layer_preserves_wf(acc: ValueView, layer: LayerView)
    requires
        crate::value::wf_value(acc),
        forall|i: int| 0 <= i < layer.len() ==> crate::value::wf_value(#[trigger] layer[i].1),
    ensures
        crate::value::wf_value(spec_apply_layer(acc, layer)),
    decreases layer.len(),
{
    if layer.len() > 0 {
        crate::path::lemma_write_wf(acc, layer[0].0, layer[0].1);
        assert(forall|i: int|
            0 <= i < layer.drop_first().len() ==> (#[trigger] layer.drop_first()[i]) == layer[i
                + 1]);
        lemma_apply_layer_preserves_wf(
            spec_write(acc, layer[0].0, layer[0].1),
            layer.drop_first(),
        );
    }
}

proof fn lemma_apply_pairs_preserves_wf(acc: ValueView, pairs: Seq<(Seq<char>, ValueView)>)
    requires
        crate::value::wf_value(acc),
    ensures
        spec_apply_pairs(acc, pairs) matches Some(c) ==> crate::value::wf_value(c),
    decreases pairs.len(),
{
    if pairs.len() > 0 {
        match spec_parse_expr(ascii_lower(pairs[0].0)) {
            Some(steps) => {
                lemma_flatten_wf(steps, pairs[0].1);
                lemma_apply_layer_preserves_wf(acc, spec_flatten(steps, pairs[0].1));
                lemma_apply_pairs_preserves_wf(
                    spec_apply_layer(acc, spec_flatten(steps, pairs[0].1)),
                    pairs.drop_first(),
                );
            },
            None => {},
        }
    }
}

proof fn lemma_apply_sources_preserves_wf(acc: ValueView, ss: Seq<SourceView>)
    requires
        crate::value::wf_value(acc),
    ensures
        spec_apply_sources(acc, ss) matches Some(c) ==> crate::value::wf_value(c),
    decreases ss.len(),
{
    if ss.len() > 0 {
        match ss[0].outcome {
            Err(_) => {},
            Ok(pairs) => {
                lemma_apply_pairs_preserves_wf(acc, pairs);
                match spec_apply_pairs(acc, pairs) {
                    Some(acc2) => {
                        lemma_apply_sources_preserves_wf(acc2, ss.drop_first());
                    },
                    None => {},
                }
            },
        }
    }
}

/// Every cache the store computes is well-formed — all its tables sorted
/// with unique keys, so rendering is always in sorted key order —
/// provided the values bound in the defaults and overrides layers are
/// themselves well-formed (source contributions dissolve into scalar
/// leaves, so nothing is asked of them).
pub proof fn lemma_merged_cache_wf(
    defaults: LayerView,
    sources: Seq<SourceView>,
    overrides: LayerView,
)
    requires
        forall|i: int| 0 <= i < defaults.len() ==> crate::value::wf_value(#[trigger] defaults[i].1),
        forall|i: int|
            0 <= i < overrides.len() ==> crate::value::wf_value(#[trigger] overrides[i].1),
    ensures
        spec_merged(defaults, sources, overrides) matches Some(c) ==> crate::value::wf_value(c),
{
    assert(crate::value::wf_value(empty_table_view()));
    lemma_apply_layer_preserves_wf(empty_table_view(), defaults);
    let after_d = spec_apply_layer(empty_table_view(), defaults);
    lemma_apply_sources_preserves_wf(after_d, sources);
    match spec_apply_sources(after_d, sources) {
        Some(a) => {
            lemma_apply_layer_preserves_wf(a, overrides);
        },
        None => {},
    }
}

} // verus!
