//! The dynamically typed configuration value: a tree of scalars, arrays
//! and string-keyed tables, each node optionally tagged with a provenance
//! string.

use vstd::prelude::*;
use crate::error::ConfigError;
use crate::strutil::ascii_lower;
use crate::strutil::int_to_string;
use crate::strutil::lex_lt;
use crate::strutil::lemma_lex_lt_irreflexive;
use crate::strutil::lemma_lex_lt_total;
use crate::strutil::parse_i64;
use crate::strutil::spec_int_text;
use crate::strutil::spec_int_value;
use crate::strutil::spec_is_int_literal;
use crate::strutil::str_eq;
use crate::strutil::str_lt;
use crate::strutil::to_ascii_lowercase;

verus! {

/// The view of an optional string.
pub open spec fn opt_str_view(o: Option<String>) -> Option<Seq<char>> {
    match o {
        Some(s) => Some(s@),
        None => None,
    }
}

/// Mathematical model of a float payload: its canonical decimal text and
/// the two readings the coercions use.
pub struct FloatView {
    pub text: Seq<char>,
    pub is_zero: bool,
    pub rounded: int,
}

/// Mathematical model of a value's underlying kind.
pub enum KindView {
    Nil,
    Boolean(bool),
    Integer(int),
    Float(FloatView),
    String(Seq<char>),
    Table(Seq<(Seq<char>, ValueView)>),
    Array(Seq<ValueView>),
}

/// Mathematical model of a whole value: its provenance and its kind.
pub struct ValueView {
    pub origin: Option<Seq<char>>,
    pub kind: KindView,
}

/// A floating-point scalar, held by the plain values the store's logic
/// reads: the canonical decimal text the number formats to, whether the
/// number is exactly zero, and the number rounded to the nearest 64-bit
/// integer (ties away from zero). The surrounding application converts
/// between this representation and the machine float format at the edge.
#[derive(Debug)]
pub struct FloatVal {
    pub text: String,
    pub is_zero: bool,
    pub rounded: i64,
}

/// An ordered sequence of values.
pub type Array = Vec<Value>;

/// Underlying kind of a configuration value.
#[derive(Debug)]
pub enum ValueKind {
    Nil,
    Boolean(bool),
    Integer(i64),
    Float(FloatVal),
    String(String),
    Table(Table),
    Array(Array),
}

/// A configuration value.
#[derive(Debug)]
pub struct Value {
    /// A description of the original location of the value: a file name,
    /// a remote URI, or a phrase such as "the environment".
    pub(crate) origin: Option<String>,
    /// Underlying kind of the configuration value.
    pub kind: ValueKind,
}

/// A mapping from strings to values with unique keys, kept sorted in
/// lexicographic key order so that rendering is deterministic.
#[derive(Debug)]
pub struct Table {
    pub(crate) entries: Vec<(String, Value)>,
}

// ---------------------------------------------------------------------
// Views
// ---------------------------------------------------------------------

/// The views of a sequence of values, elementwise.
pub open(crate) spec fn view_of_values(s: Seq<Value>) -> Seq<ValueView>
    decreases s,
{
    if s.len() == 0 {
        Seq::empty()
    } else {
        view_of_values(s.drop_last()).push(view_of_value(s.last()))
    }
}

/// The views of a sequence of table entries, elementwise.
pub open(crate) spec fn view_of_entries(s: Seq<(String, Value)>) -> Seq<(Seq<char>, ValueView)>
    decreases s,
{
    if s.len() == 0 {
        Seq::empty()
    } else {
        view_of_entries(s.drop_last()).push((s.last().0@, view_of_value(s.last().1)))
    }
}

/// `view_of_values` keeps the length.
pub broadcast proof fn lemma_view_of_values_len(s: Seq<Value>)
    ensures
        (#[trigger] view_of_values(s)).len() == s.len(),
    decreases s,
{
    if s.len() > 0 {
        lemma_view_of_values_len(s.drop_last());
    }
}

/// `view_of_values` maps the sequence elementwise.
pub broadcast proof fn lemma_view_of_values_index(s: Seq<Value>, i: int)
    ensures
        0 <= i < s.len() ==> (#[trigger] view_of_values(s)[i]) == view_of_value(s[i]),
    decreases s,
{
    lemma_view_of_values_len(s);
    if s.len() > 0 {
        lemma_view_of_values_index(s.drop_last(), i);
        lemma_view_of_values_len(s.drop_last());
    }
}

/// `view_of_entries` keeps the length.
pub broadcast proof fn lemma_view_of_entries_len(s: Seq<(String, Value)>)
    ensures
        (#[trigger] view_of_entries(s)).len() == s.len(),
    decreases s,
{
    if s.len() > 0 {
        lemma_view_of_entries_len(s.drop_last());
    }
}

/// `view_of_entries` maps the sequence elementwise.
pub broadcast proof fn lemma_view_of_entries_index(s: Seq<(String, Value)>, i: int)
    ensures
        0 <= i < s.len() ==> (#[trigger] view_of_entries(s)[i]) == (s[i].0@, view_of_value(s[i].1)),
    decreases s,
{
    lemma_view_of_entries_len(s);
    if s.len() > 0 {
        lemma_view_of_entries_index(s.drop_last(), i);
        lemma_view_of_entries_len(s.drop_last());
    }
}

/// Groups the elementwise facts about the sequence views.
pub broadcast group group_value_views {
    lemma_view_of_values_len,
    lemma_view_of_values_index,
    lemma_view_of_entries_len,
    lemma_view_of_entries_index,
}

/// The view of a kind.
pub open(crate) spec fn view_of_kind(k: ValueKind) -> KindView
    decreases k,
{
    match k {
        ValueKind::Nil => KindView::Nil,
        ValueKind::Boolean(b) => KindView::Boolean(b),
        ValueKind::Integer(i) => KindView::Integer(i as int),
        ValueKind::Float(f) => KindView::Float(
            FloatView { text: f.text@, is_zero: f.is_zero, rounded: f.rounded as int },
        ),
        ValueKind::String(s) => KindView::String(s@),
        ValueKind::Table(t) => KindView::Table(view_of_entries(t.entries@)),
        ValueKind::Array(a) => KindView::Array(view_of_values(a@)),
    }
}

/// The view of a value.
pub open(crate) spec fn view_of_value(v: Value) -> ValueView
    decreases v,
{
    ValueView {
        origin: match v.origin {
            Some(s) => Some(s@),
            None => None,
        },
        kind: view_of_kind(v.kind),
    }
}

impl View for FloatVal {
    type V = FloatView;

    open spec fn view(&self) -> FloatView {
        FloatView { text: self.text@, is_zero: self.is_zero, rounded: self.rounded as int }
    }
}

impl View for ValueKind {
    type V = KindView;

    open(crate) spec fn view(&self) -> KindView {
        view_of_kind(*self)
    }
}

impl View for Value {
    type V = ValueView;

    open(crate) spec fn view(&self) -> ValueView {
        view_of_value(*self)
    }
}

impl View for Table {
    type V = Seq<(Seq<char>, ValueView)>;

    open(crate) spec fn view(&self) -> Seq<(Seq<char>, ValueView)> {
        view_of_entries(self.entries@)
    }
}

// ---------------------------------------------------------------------
// Well-formedness: tables are sorted with unique keys
// ---------------------------------------------------------------------

/// Whether table entries are in strictly increasing key order (which also
/// makes the keys unique).
pub open spec fn table_keys_sorted(es: Seq<(Seq<char>, ValueView)>) -> bool {
    forall|i: int, j: int| 0 <= i < j < es.len() ==> lex_lt(es[i].0, es[j].0)
}

/// Whether every value in a sequence is well-formed.
pub open spec fn wf_items(vs: Seq<ValueView>) -> bool
    decreases vs,
{
    if vs.len() == 0 {
        true
    } else {
        wf_items(vs.drop_last()) && wf_value(vs.last())
    }
}

/// Whether every value bound in a sequence of table entries is
/// well-formed.
pub open spec fn wf_entry_values(es: Seq<(Seq<char>, ValueView)>) -> bool
    decreases es,
{
    if es.len() == 0 {
        true
    } else {
        wf_entry_values(es.drop_last()) && wf_value(es.last().1)
    }
}

/// Whether every table inside a value is sorted with unique keys.
pub open spec fn wf_value(v: ValueView) -> bool
    decreases v,
{
    match v.kind {
        KindView::Table(es) => table_keys_sorted(es) && wf_entry_values(es),
        KindView::Array(vs) => wf_items(vs),
        _ => true,
    }
}

/// Well-formedness of bare table entries.
pub open spec fn table_wf(es: Seq<(Seq<char>, ValueView)>) -> bool {
    table_keys_sorted(es) && wf_entry_values(es)
}

/// A sequence of values is well-formed exactly when each one is.
pub proof fn lemma_wf_items_char(vs: Seq<ValueView>)
    ensures
        wf_items(vs) <==> (forall|i: int| 0 <= i < vs.len() ==> #[trigger] wf_value(vs[i])),
    decreases vs,
{
    if vs.len() > 0 {
        lemma_wf_items_char(vs.drop_last());
        assert(forall|i: int| 0 <= i < vs.len() - 1 ==> vs.drop_last()[i] == vs[i]);
        if wf_items(vs) {
            assert(forall|i: int| 0 <= i < vs.len() ==> #[trigger] wf_value(vs[i])) by {
                assert(wf_value(vs.last()));
                assert(forall|i: int| 0 <= i < vs.len() - 1 ==> #[trigger] wf_value(
                    vs.drop_last()[i],
                ));
            }
        }
        if forall|i: int| 0 <= i < vs.len() ==> #[trigger] wf_value(vs[i]) {
            assert(forall|i: int| 0 <= i < vs.drop_last().len() ==> #[trigger] wf_value(
                vs.drop_last()[i],
            ));
            assert(vs.last() == vs[vs.len() - 1]);
            assert(wf_value(vs[vs.len() - 1]));
            assert(wf_items(vs));
        }
    }
}

/// Table entries are well-formed exactly when each bound value is.
pub proof fn lemma_wf_entry_values_char(es: Seq<(Seq<char>, ValueView)>)
    ensures
        wf_entry_values(es) <==> (forall|i: int|
            0 <= i < es.len() ==> #[trigger] wf_value(es[i].1)),
    decreases es,
{
    if es.len() > 0 {
        lemma_wf_entry_values_char(es.drop_last());
        assert(forall|i: int| 0 <= i < es.len() - 1 ==> es.drop_last()[i] == es[i]);
        if wf_entry_values(es) {
            assert(forall|i: int| 0 <= i < es.len() ==> #[trigger] wf_value(es[i].1)) by {
                assert(wf_value(es.last().1));
                assert(forall|i: int| 0 <= i < es.len() - 1 ==> #[trigger] wf_value(
                    es.drop_last()[i].1,
                ));
            }
        }
        if forall|i: int| 0 <= i < es.len() ==> #[trigger] wf_value(es[i].1) {
            assert(forall|i: int| 0 <= i < es.drop_last().len() ==> #[trigger] wf_value(
                es.drop_last()[i].1,
            ));
            assert(es.last() == es[es.len() - 1]);
            assert(wf_value(es[es.len() - 1].1));
            assert(wf_entry_values(es));
        }
    }
}

// ---------------------------------------------------------------------
// Table lookup and insertion, as functions of the model
// ---------------------------------------------------------------------

/// The value bound to `k`: the first entry with that key, if any.
pub open spec fn spec_table_get(es: Seq<(Seq<char>, ValueView)>, k: Seq<char>) -> Option<ValueView>
    decreases es.len(),
{
    if es.len() == 0 {
        None
    } else if es[0].0 == k {
        Some(es[0].1)
    } else {
        spec_table_get(es.drop_first(), k)
    }
}

/// The entries after binding `k` to `v`: an existing binding is replaced
/// in place, a new one is inserted at its sorted position.
pub open spec fn spec_table_insert(
    es: Seq<(Seq<char>, ValueView)>,
    k: Seq<char>,
    v: ValueView,
) -> Seq<(Seq<char>, ValueView)>
    decreases es.len(),
{
    if es.len() == 0 {
        seq![(k, v)]
    } else if es[0].0 == k {
        seq![(k, v)] + es.drop_first()
    } else if lex_lt(k, es[0].0) {
        seq![(k, v)] + es
    } else {
        seq![es[0]] + spec_table_insert(es.drop_first(), k, v)
    }
}

/// Looking up the key just inserted finds the inserted value.
pub proof fn lemma_table_insert_get(es: Seq<(Seq<char>, ValueView)>, k: Seq<char>, v: ValueView)
    ensures
        spec_table_get(spec_table_insert(es, k, v), k) == Some(v),
    decreases es.len(),
{
    let r = spec_table_insert(es, k, v);
    if es.len() == 0 {
        assert(r[0] == (k, v));
    } else if es[0].0 == k {
        assert(r[0] == (k, v));
    } else if lex_lt(k, es[0].0) {
        assert(r[0] == (k, v));
        lemma_lex_lt_irreflexive(k);
    } else {
        lemma_table_insert_get(es.drop_first(), k, v);
        assert(r[0] == es[0]);
        assert(r.drop_first() =~= spec_table_insert(es.drop_first(), k, v));
    }
}

/// Looking up a different key after an insertion sees the old binding.
pub proof fn lemma_table_insert_get_other(
    es: Seq<(Seq<char>, ValueView)>,
    k: Seq<char>,
    v: ValueView,
    k2: Seq<char>,
)
    requires
        k2 != k,
    ensures
        spec_table_get(spec_table_insert(es, k, v), k2) == spec_table_get(es, k2),
    decreases es.len(),
{
    let r = spec_table_insert(es, k, v);
    if es.len() == 0 {
        assert(r[0] == (k, v));
        assert(r.drop_first() =~= Seq::<(Seq<char>, ValueView)>::empty());
        assert(spec_table_get(Seq::<(Seq<char>, ValueView)>::empty(), k2) is None);
    } else if es[0].0 == k {
        assert(r[0] == (k, v));
        assert(r.drop_first() =~= es.drop_first());
    } else if lex_lt(k, es[0].0) {
        assert(r[0] == (k, v));
        assert(r.drop_first() =~= es);
    } else {
        lemma_table_insert_get_other(es.drop_first(), k, v, k2);
        assert(r[0] == es[0]);
        assert(r.drop_first() =~= spec_table_insert(es.drop_first(), k, v));
    }
}

/// Insertion keeps entries sorted and adds no entry other than the new
/// binding; the length grows by one exactly when the key was absent.
pub proof fn lemma_table_insert_sorted(es: Seq<(Seq<char>, ValueView)>, k: Seq<char>, v: ValueView)
    requires
        table_keys_sorted(es),
    ensures
        table_keys_sorted(spec_table_insert(es, k, v)),
        forall|i: int|
            0 <= i < spec_table_insert(es, k, v).len() ==> #[trigger] spec_table_insert(es, k, v)[i]
                == (k, v) || es.contains(spec_table_insert(es, k, v)[i]),
        es.len() <= spec_table_insert(es, k, v).len() <= es.len() + 1,
    decreases es.len(),
{
    let r = spec_table_insert(es, k, v);
    if es.len() == 0 {
    } else if es[0].0 == k {
        assert(forall|i: int| 0 <= i < es.drop_first().len() ==> es.contains(es.drop_first()[i]));
        assert(forall|i: int, j: int|
            0 <= i < j < r.len() ==> r[i].0 == es[i].0 && r[j].0 == es[j].0);
    } else if lex_lt(k, es[0].0) {
        assert(forall|j: int| 1 <= j < r.len() ==> r[j] == es[j - 1]);
        assert forall|i: int, j: int| 0 <= i < j < r.len() implies lex_lt(r[i].0, r[j].0) by {
            assert(r[j] == es[j - 1]);
            if i == 0 {
                if j > 1 {
                    assert(lex_lt(es[0].0, es[j - 1].0));
                    crate::strutil::lemma_lex_lt_transitive(k, es[0].0, es[j - 1].0);
                }
            } else {
                assert(r[i] == es[i - 1]);
                assert(lex_lt(es[i - 1].0, es[j - 1].0));
            }
        }
    } else {
        assert forall|i: int, j: int|
            0 <= i < j < es.drop_first().len() implies lex_lt(
            es.drop_first()[i].0,
            es.drop_first()[j].0,
        ) by {
            assert(es.drop_first()[i] == es[i + 1]);
            assert(es.drop_first()[j] == es[j + 1]);
            assert(lex_lt(es[i + 1].0, es[j + 1].0));
        }
        assert(table_keys_sorted(es.drop_first()));
        lemma_table_insert_sorted(es.drop_first(), k, v);
        let rt = spec_table_insert(es.drop_first(), k, v);
        assert(r[0] == es[0]);
        assert(forall|j: int| 1 <= j < r.len() ==> r[j] == rt[j - 1]);
        // the head key sorts before the inserted key and before every old
        // tail key, hence before every key of the new tail
        assert(!lex_lt(k, es[0].0) && es[0].0 != k);
        lemma_lex_lt_total(k, es[0].0);
        assert(lex_lt(es[0].0, k));
        assert forall|j: int| 1 <= j < r.len() implies lex_lt(r[0].0, r[j].0) by {
            assert(rt[j - 1] == (k, v) || es.drop_first().contains(rt[j - 1]));
            if rt[j - 1] == (k, v) {
                assert(lex_lt(es[0].0, k));
            } else {
                let m = choose|m: int|
                    0 <= m < es.drop_first().len() && es.drop_first()[m] == rt[j - 1];
                assert(es.drop_first()[m] == es[m + 1]);
                assert(lex_lt(es[0].0, es[m + 1].0));
            }
        }
        assert(forall|i: int| 0 <= i < rt.len() ==> rt[i] == (k, v) || es.contains(rt[i])) by {
            assert(forall|i: int|
                0 <= i < es.drop_first().len() ==> es.contains(es.drop_first()[i]));
        }
        assert(table_keys_sorted(r));
    }
}

proof fn lemma_table_get_skip(es: Seq<(Seq<char>, ValueView)>, k: Seq<char>, n: int)
    requires
        0 <= n <= es.len(),
        forall|i: int| 0 <= i < n ==> es[i].0 != k,
    ensures
        spec_table_get(es, k) == spec_table_get(es.skip(n), k),
    decreases n,
{
    if n == 0 {
        assert(es.skip(0) =~= es);
    } else {
        assert(es.drop_first() =~= es.skip(1));
        lemma_table_get_skip(es.drop_first(), k, n - 1);
        assert(es.drop_first().skip(n - 1) =~= es.skip(n));
    }
}

proof fn lemma_table_insert_prefix(
    es: Seq<(Seq<char>, ValueView)>,
    k: Seq<char>,
    v: ValueView,
    n: int,
)
    requires
        0 <= n <= es.len(),
        forall|i: int| 0 <= i < n ==> lex_lt(es[i].0, k),
    ensures
        spec_table_insert(es, k, v) == es.take(n) + spec_table_insert(es.skip(n), k, v),
    decreases n,
{
    if n == 0 {
        assert(es.skip(0) =~= es);
        assert(es.take(0) + spec_table_insert(es, k, v) =~= spec_table_insert(es, k, v));
    } else {
        assert(lex_lt(es[0].0, k));
        lemma_lex_lt_irreflexive(es[0].0);
        assert(es[0].0 != k);
        if lex_lt(k, es[0].0) {
            crate::strutil::lemma_lex_lt_transitive(k, es[0].0, k);
            lemma_lex_lt_irreflexive(k);
            assert(false);
        }
        assert(es.drop_first() =~= es.skip(1));
        lemma_table_insert_prefix(es.drop_first(), k, v, n - 1);
        assert(es.drop_first().skip(n - 1) =~= es.skip(n));
        assert(es.drop_first().take(n - 1) =~= es.take(n).drop_first());
        assert(seq![es[0]] + (es.take(n).drop_first() + spec_table_insert(es.skip(n), k, v))
            =~= es.take(n) + spec_table_insert(es.skip(n), k, v));
    }
}

// ---------------------------------------------------------------------
// Executable table operations
// ---------------------------------------------------------------------

impl Table {
    /// An empty table.
    pub fn new() -> (r: Table)
        ensures
            r@ == Seq::<(Seq<char>, ValueView)>::empty(),
    {
        broadcast use group_value_views;

        let r = Table { entries: Vec::new() };
        proof {
            assert(r@ =~= Seq::<(Seq<char>, ValueView)>::empty());
        }
        r
    }

    /// The number of entries.
    pub fn len(&self) -> (n: usize)
        ensures
            n == self@.len(),
    {
        proof {
            broadcast use group_value_views;

        }
        self.entries.len()
    }

    /// The entry at a position, in key order.
    pub fn entry_at(&self, i: usize) -> (r: (&String, &Value))
        requires
            i < self@.len(),
        ensures
            r.0@ == self@[i as int].0,
            r.1@ == self@[i as int].1,
    {
        proof {
            broadcast use group_value_views;

        }
        let e = &self.entries[i];
        (&e.0, &e.1)
    }

    /// The value bound to `key`, if any.
    pub fn get(&self, key: &str) -> (r: Option<&Value>)
        ensures
            match r {
                Some(v) => spec_table_get(self@, key@) == Some(v@),
                None => spec_table_get(self@, key@) is None,
            },
    {
        broadcast use group_value_views;

        let n = self.entries.len();
        let mut i: usize = 0;
        while i < n
            invariant
                i <= n,
                n == self@.len(),
                n == self.entries@.len(),
                forall|j: int| 0 <= j < i ==> self@[j].0 != key@,
            decreases n - i,
        {
            if str_eq(self.entries[i].0.as_str(), key) {
                proof {
                    broadcast use group_value_views;

                    assert(self@[i as int] == (self.entries@[i as int].0@, view_of_value(
                        self.entries@[i as int].1,
                    )));
                    lemma_table_get_skip(self@, key@, i as int);
                    assert(self@.skip(i as int)[0] == self@[i as int]);
                }
                return Some(&self.entries[i].1);
            }
            proof {
                broadcast use group_value_views;

                assert(self@[i as int] == (self.entries@[i as int].0@, view_of_value(
                    self.entries@[i as int].1,
                )));
            }
            i = i + 1;
        }
        proof {
            lemma_table_get_skip(self@, key@, n as int);
            assert(self@.skip(n as int) =~= Seq::<(Seq<char>, ValueView)>::empty());
        }
        None
    }

    /// The position of the first entry whose key does not sort before
    /// `key`: where a binding for `key` lives or would be inserted.
    fn lower_bound(&self, key: &str) -> (i: usize)
        ensures
            i <= self@.len(),
            forall|j: int| 0 <= j < i ==> lex_lt(self@[j].0, key@),
            i < self@.len() ==> !lex_lt(self@[i as int].0, key@),
    {
        broadcast use group_value_views;

        let n = self.entries.len();
        let mut i: usize = 0;
        while i < n
            invariant
                i <= n,
                n == self@.len(),
                n == self.entries@.len(),
                forall|j: int| 0 <= j < i ==> lex_lt(self@[j].0, key@),
            decreases n - i,
        {
            proof {
                broadcast use group_value_views;

                assert(self@[i as int] == (self.entries@[i as int].0@, view_of_value(
                    self.entries@[i as int].1,
                )));
            }
            if !str_lt(self.entries[i].0.as_str(), key) {
                return i;
            }
            i = i + 1;
        }
        i
    }

    /// Binds `key` to `value`, replacing any existing binding and keeping
    /// the entries in sorted key order.
    pub fn insert(&mut self, key: String, value: Value)
        ensures
            final(self)@ == spec_table_insert(old(self)@, key@, value@),
    {
        broadcast use group_value_views;

        let n = self.entries.len();
        let i = self.lower_bound(key.as_str());
        proof {
            lemma_table_insert_prefix(self@, key@, value@, i as int);
        }
        let ghost pre = self@;
        if i < n {
            if str_eq(self.entries[i].0.as_str(), key.as_str()) {
                self.entries[i] = (key, value);
                proof {
                    assert(pre.skip(i as int)[0].0 == pre[i as int].0);
                    assert(spec_table_insert(pre.skip(i as int), key@, value@) =~= seq![
                        (key@, value@),
                    ] + pre.skip(i as int).drop_first());
                    assert(final(self)@ =~= pre.take(i as int) + (seq![(key@, value@)] + pre.skip(
                        i as int,
                    ).drop_first()));
                }
                return;
            }
            proof {
                assert(pre.skip(i as int)[0].0 == pre[i as int].0);
                assert(!lex_lt(pre[i as int].0, key@));
                lemma_lex_lt_total(key@, pre[i as int].0);
                assert(lex_lt(key@, pre[i as int].0));
                assert(spec_table_insert(pre.skip(i as int), key@, value@) =~= seq![
                    (key@, value@),
                ] + pre.skip(i as int));
            }
            self.entries.insert(i, (key, value));
            proof {
                assert(final(self)@ =~= pre.take(i as int) + (seq![(key@, value@)] + pre.skip(
                    i as int,
                )));
            }
        } else {
            proof {
                assert(pre.skip(n as int) =~= Seq::<(Seq<char>, ValueView)>::empty());
                assert(spec_table_insert(pre.skip(n as int), key@, value@) =~= seq![
                    (key@, value@),
                ]);
            }
            self.entries.push((key, value));
            proof {
                assert(final(self)@ =~= pre.take(n as int) + seq![(key@, value@)]);
            }
        }
    }
}

// ---------------------------------------------------------------------
// Construction
// ---------------------------------------------------------------------

impl Value {
    /// Create a new value instance that will remember its source uri.
    pub fn new(origin: Option<&String>, kind: ValueKind) -> (r: Value)
        ensures
            r@.kind == kind@,
            r@.origin == match origin {
                Some(s) => Some(s@),
                None => None::<Seq<char>>,
            },
    {
        Value {
            origin: match origin {
                Some(s) => Some(s.clone()),
                None => None,
            },
            kind,
        }
    }

    /// Whether every table inside this value is sorted with unique keys.
    pub open spec fn wf(&self) -> bool {
        wf_value(self@)
    }
}

impl Default for Value {
    /// A nil value with no provenance.
    fn default() -> (r: Value)
        ensures
            r@.kind == KindView::Nil,
            r@.origin is None,
    {
        Value { origin: None, kind: ValueKind::Nil }
    }
}

impl Default for ValueKind {
    /// The nil kind.
    fn default() -> (r: ValueKind)
        ensures
            r@ == KindView::Nil,
    {
        ValueKind::Nil
    }
}

impl Clone for FloatVal {
    /// A copy with the same model.
    fn clone(&self) -> (r: FloatVal)
        ensures
            r@ == self@,
    {
        FloatVal { text: self.text.clone(), is_zero: self.is_zero, rounded: self.rounded }
    }
}

impl Clone for Value {
    /// A deep copy with the same model.
    fn clone(&self) -> (r: Value)
        ensures
            r@ == self@,
        decreases *self,
    {
        proof {
            assert(decreases_to!(*self => self.kind));
        }
        Value {
            origin: match &self.origin {
                Some(s) => Some(s.clone()),
                None => None,
            },
            kind: self.kind.clone(),
        }
    }
}

impl Clone for ValueKind {
    /// A deep copy with the same model.
    fn clone(&self) -> (r: ValueKind)
        ensures
            r@ == self@,
        decreases *self,
    {
        match self {
            ValueKind::Nil => ValueKind::Nil,
            ValueKind::Boolean(b) => ValueKind::Boolean(*b),
            ValueKind::Integer(i) => ValueKind::Integer(*i),
            ValueKind::Float(f) => ValueKind::Float(f.clone()),
            ValueKind::String(s) => ValueKind::String(s.clone()),
            ValueKind::Table(t) => {
                proof {
                    assert(decreases_to!(*self => *t));
                }
                ValueKind::Table(t.clone())
            },
            ValueKind::Array(a) => {
                let mut out: Vec<Value> = Vec::new();
                let n = a.len();
                let mut i: usize = 0;
                while i < n
                    invariant
                        i <= n,
                        n == a@.len(),
                        out@.len() == i,
                        forall|j: int| 0 <= j < i ==> view_of_value(out@[j]) == view_of_value(a@[j]),
                        decreases_to!(*self => a@),
                    decreases n - i,
                {
                    proof {
                        assert(decreases_to!(a@ => a@[i as int]));
                    }
                    out.push(a[i].clone());
                    i = i + 1;
                }
                let r = ValueKind::Array(out);
                proof {
                    broadcast use group_value_views;

                    assert(view_of_values(out@) =~= view_of_values(a@));
                }
                r
            },
        }
    }
}

impl Clone for Table {
    /// A deep copy with the same model.
    fn clone(&self) -> (r: Table)
        ensures
            r@ == self@,
        decreases *self,
    {
        let mut out: Vec<(String, Value)> = Vec::new();
        let n = self.entries.len();
        let mut i: usize = 0;
        while i < n
            invariant
                i <= n,
                n == self.entries@.len(),
                out@.len() == i,
                forall|j: int|
                    0 <= j < i ==> out@[j].0@ == self.entries@[j].0@ && view_of_value(out@[j].1)
                        == view_of_value(self.entries@[j].1),
                decreases_to!(*self => self.entries@),
            decreases n - i,
        {
            proof {
                assert(decreases_to!(self.entries@ => self.entries@[i as int]));
                assert(decreases_to!(self.entries@[i as int] => self.entries@[i as int].1));
            }
            let e = &self.entries[i];
            out.push((e.0.clone(), e.1.clone()));
            i = i + 1;
        }
        let r = Table { entries: out };
        proof {
            broadcast use group_value_views;

            assert(view_of_entries(out@) =~= view_of_entries(self.entries@));
        }
        r
    }
}

// ---------------------------------------------------------------------
// Coercions
// ---------------------------------------------------------------------

/// The phrase describing a kind's shape in an `InvalidType` error.
pub open spec fn spec_type_name(k: KindView) -> Seq<char> {
    match k {
        KindView::Nil => "nil"@,
        KindView::Boolean(_) => "a boolean"@,
        KindView::Integer(_) => "an integer"@,
        KindView::Float(_) => "a floating point"@,
        KindView::String(_) => "a string"@,
        KindView::Table(_) => "a map"@,
        KindView::Array(_) => "an array"@,
    }
}

/// Whether a string spells a true boolean word, up to ASCII case.
pub open spec fn spec_is_true_word(s: Seq<char>) -> bool {
    ||| ascii_lower(s) == "1"@
    ||| ascii_lower(s) == "true"@
    ||| ascii_lower(s) == "on"@
    ||| ascii_lower(s) == "yes"@
}

/// Whether a string spells a false boolean word, up to ASCII case.
pub open spec fn spec_is_false_word(s: Seq<char>) -> bool {
    ||| ascii_lower(s) == "0"@
    ||| ascii_lower(s) == "false"@
    ||| ascii_lower(s) == "off"@
    ||| ascii_lower(s) == "no"@
}

/// Whether `r` is the `InvalidType` error a coercion of a value of kind
/// `k` with provenance `origin` to the shape `expected` produces.
pub open spec fn spec_invalid_type_err<T>(
    r: Result<T, ConfigError>,
    origin: Option<Seq<char>>,
    k: KindView,
    expected: Seq<char>,
) -> bool {
    &&& r matches Err(e)
    &&& e matches ConfigError::InvalidType { origin: o, unexpected: u, expected: x, key }
    &&& opt_str_view(o) == origin
    &&& u@ == spec_type_name(k)
    &&& x@ == expected
    &&& key is None
}

pub(crate) fn invalid_type_error(origin: &Option<String>, unexpected: &'static str, expected: &'static str) -> (r:
    ConfigError)
    ensures
        r matches ConfigError::InvalidType { origin: o, unexpected: u, expected: x, key }
            && opt_str_view(o) == opt_str_view(*origin) && u@ == unexpected@ && x@ == expected@
            && key is None,
{
    ConfigError::InvalidType {
        origin: match origin {
            Some(s) => Some(s.clone()),
            None => None,
        },
        unexpected: unexpected.to_owned(),
        expected: expected.to_owned(),
        key: None,
    }
}

pub(crate) fn kind_name_of(kind: &ValueKind) -> (r: &'static str)
    ensures
        r@ == spec_type_name(kind@),
{
    match kind {
        ValueKind::Nil => "nil",
        ValueKind::Boolean(_) => "a boolean",
        ValueKind::Integer(_) => "an integer",
        ValueKind::Float(_) => "a floating point",
        ValueKind::String(_) => "a string",
        ValueKind::Table(_) => "a map",
        ValueKind::Array(_) => "an array",
    }
}

impl Value {
    /// Reads the value as a boolean: booleans pass through, numbers are
    /// false exactly when zero, and strings spelling a boolean word
    /// convert by their sense; everything else fails.
    pub fn into_bool(self) -> (r: Result<bool, ConfigError>)
        ensures
            match self@.kind {
                KindView::Boolean(b) => r == Ok::<bool, ConfigError>(b),
                KindView::Integer(i) => r == Ok::<bool, ConfigError>(i != 0),
                KindView::Float(f) => r == Ok::<bool, ConfigError>(!f.is_zero),
                KindView::String(s) => if spec_is_true_word(s) {
                    r == Ok::<bool, ConfigError>(true)
                } else if spec_is_false_word(s) {
                    r == Ok::<bool, ConfigError>(false)
                } else {
                    spec_invalid_type_err(r, self@.origin, self@.kind, "a boolean"@)
                },
                _ => spec_invalid_type_err(r, self@.origin, self@.kind, "a boolean"@),
            },
    {
        let Value { origin, kind } = self;
        match kind {
            ValueKind::Boolean(value) => Ok(value),
            ValueKind::Integer(value) => Ok(value != 0),
            ValueKind::Float(value) => Ok(!value.is_zero),
            ValueKind::String(value) => {
                let lower = to_ascii_lowercase(value.as_str());
                if str_eq(lower.as_str(), "1") || str_eq(lower.as_str(), "true") || str_eq(
                    lower.as_str(),
                    "on",
                ) || str_eq(lower.as_str(), "yes") {
                    Ok(true)
                } else if str_eq(lower.as_str(), "0") || str_eq(lower.as_str(), "false") || str_eq(
                    lower.as_str(),
                    "off",
                ) || str_eq(lower.as_str(), "no") {
                    Ok(false)
                } else {
                    Err(invalid_type_error(&origin, "a string", "a boolean"))
                }
            },
            kind => {
                let name = kind_name_of(&kind);
                Err(invalid_type_error(&origin, name, "a boolean"))
            },
        }
    }

    /// Reads the value as a 64-bit integer: integers pass through,
    /// booleans become zero or one, floats are rounded, and strings
    /// convert by boolean word or as a decimal literal; everything else
    /// fails.
    pub fn into_int(self) -> (r: Result<i64, ConfigError>)
        ensures
            match self@.kind {
                KindView::Integer(i) => r matches Ok(v) && v as int == i,
                KindView::Boolean(b) => r == Ok::<i64, ConfigError>(
                    if b {
                        1
                    } else {
                        0
                    },
                ),
                KindView::Float(f) => r matches Ok(v) && v as int == f.rounded,
                KindView::String(s) => if spec_is_true_word(s) {
                    r matches Ok(v) && v as int == 1
                } else if spec_is_false_word(s) {
                    r matches Ok(v) && v as int == 0
                } else if spec_is_int_literal(s) {
                    r matches Ok(v) && v as int == spec_int_value(s)
                } else {
                    spec_invalid_type_err(r, self@.origin, self@.kind, "an integer"@)
                },
                _ => spec_invalid_type_err(r, self@.origin, self@.kind, "an integer"@),
            },
    {
        let Value { origin, kind } = self;
        match kind {
            ValueKind::Integer(value) => Ok(value),
            ValueKind::Boolean(value) => Ok(
                if value {
                    1
                } else {
                    0
                },
            ),
            ValueKind::Float(value) => Ok(value.rounded),
            ValueKind::String(value) => {
                let lower = to_ascii_lowercase(value.as_str());
                if str_eq(lower.as_str(), "1") || str_eq(lower.as_str(), "true") || str_eq(
                    lower.as_str(),
                    "on",
                ) || str_eq(lower.as_str(), "yes") {
                    Ok(1)
                } else if str_eq(lower.as_str(), "0") || str_eq(lower.as_str(), "false") || str_eq(
                    lower.as_str(),
                    "off",
                ) || str_eq(lower.as_str(), "no") {
                    Ok(0)
                } else {
                    match parse_i64(value.as_str()) {
                        Some(v) => Ok(v),
                        None => Err(invalid_type_error(&origin, "a string", "an integer")),
                    }
                }
            },
            kind => {
                let name = kind_name_of(&kind);
                Err(invalid_type_error(&origin, name, "an integer"))
            },
        }
    }

    /// Reads the value as a string: strings pass through and scalars
    /// format to their canonical text; nil, arrays and tables fail.
    pub fn into_str(self) -> (r: Result<String, ConfigError>)
        ensures
            match self@.kind {
                KindView::String(s) => r matches Ok(x) && x@ == s,
                KindView::Boolean(b) => r matches Ok(x) && x@ == (if b {
                    "true"@
                } else {
                    "false"@
                }),
                KindView::Integer(i) => r matches Ok(x) && x@ == spec_int_text(i),
                KindView::Float(f) => r matches Ok(x) && x@ == f.text,
                _ => spec_invalid_type_err(r, self@.origin, self@.kind, "a string"@),
            },
    {
        let Value { origin, kind } = self;
        match kind {
            ValueKind::String(value) => Ok(value),
            ValueKind::Boolean(value) => Ok(
                if value {
                    "true".to_owned()
                } else {
                    "false".to_owned()
                },
            ),
            ValueKind::Integer(value) => Ok(int_to_string(value)),
            ValueKind::Float(value) => Ok(value.text),
            kind => {
                let name = kind_name_of(&kind);
                Err(invalid_type_error(&origin, name, "a string"))
            },
        }
    }

    /// Reads the value as an array; only arrays pass.
    pub fn into_array(self) -> (r: Result<Vec<Value>, ConfigError>)
        ensures
            match self@.kind {
                KindView::Array(vs) => r matches Ok(out) && view_of_values(out@) == vs,
                _ => spec_invalid_type_err(r, self@.origin, self@.kind, "an array"@),
            },
    {
        let Value { origin, kind } = self;
        match kind {
            ValueKind::Array(value) => Ok(value),
            kind => {
                let name = kind_name_of(&kind);
                Err(invalid_type_error(&origin, name, "an array"))
            },
        }
    }
}

// ---------------------------------------------------------------------
// Rendering
// ---------------------------------------------------------------------

/// The rendering of one table entry: `key: value`.
pub open spec fn spec_display_entry(e: (Seq<char>, ValueView)) -> Seq<char>
    decreases e,
{
    e.0 + ": "@ + spec_display(e.1)
}

/// The rendering of table entries in stored order, joined with commas.
pub open spec fn spec_display_entries(es: Seq<(Seq<char>, ValueView)>) -> Seq<char>
    decreases es,
{
    if es.len() == 0 {
        Seq::empty()
    } else if es.len() == 1 {
        spec_display_entry(es[0])
    } else {
        spec_display_entries(es.drop_last()) + ", "@ + spec_display_entry(es.last())
    }
}

/// The rendering of array items in order, joined with commas.
pub open spec fn spec_display_items(vs: Seq<ValueView>) -> Seq<char>
    decreases vs,
{
    if vs.len() == 0 {
        Seq::empty()
    } else if vs.len() == 1 {
        spec_display(vs[0])
    } else {
        spec_display_items(vs.drop_last()) + ", "@ + spec_display(vs.last())
    }
}

/// The display text of a value: nil is empty, scalars render to their
/// canonical literal, tables render as `{ k: v, k: v }` in stored key
/// order (sorted, for values built through the store), and arrays render
/// as `[ v, v ]` in element order.
pub open spec fn spec_display(v: ValueView) -> Seq<char>
    decreases v,
{
    match v.kind {
        KindView::Nil => Seq::empty(),
        KindView::Boolean(b) => if b {
            "true"@
        } else {
            "false"@
        },
        KindView::Integer(i) => spec_int_text(i),
        KindView::Float(f) => f.text,
        KindView::String(s) => s,
        KindView::Table(es) => "{ "@ + spec_display_entries(es) + " }"@,
        KindView::Array(vs) => "[ "@ + spec_display_items(vs) + " ]"@,
    }
}

impl Value {
    /// Renders the value for display. This is a lossy helper, not a
    /// serialization format; it is a pure function of the value's model.
    pub fn as_string(&self) -> (r: String)
        ensures
            r@ == spec_display(self@),
        decreases *self,
    {
        match &self.kind {
            ValueKind::Nil => String::new(),
            ValueKind::Boolean(b) => if *b {
                "true".to_owned()
            } else {
                "false".to_owned()
            },
            ValueKind::Integer(i) => int_to_string(*i),
            ValueKind::Float(f) => f.text.clone(),
            ValueKind::String(s) => s.clone(),
            ValueKind::Table(t) => {
                let ghost es = t@;
                proof {
                    broadcast use group_value_views;

                    assert(self@.kind == KindView::Table(es));
                    assert(decreases_to!(*self => self.kind));
                    assert(decreases_to!(self.kind => *t));
                    assert(decreases_to!(*t => t.entries));
                    assert(decreases_to!(t.entries => t.entries@));
                    assert(decreases_to!(*self => t.entries@));
                }
                let mut out: String = "{ ".to_owned();
                let n = t.entries.len();
                let mut i: usize = 0;
                while i < n
                    invariant
                        i <= n,
                        n == t.entries@.len(),
                        es == view_of_entries(t.entries@),
                        es.len() == n,
                        out@ == "{ "@ + spec_display_entries(es.take(i as int)),
                        decreases_to!(*self => t.entries@),
                    decreases n - i,
                {
                    proof {
                        broadcast use group_value_views;

                        assert(decreases_to!(t.entries@ => t.entries@[i as int]));
                        assert(decreases_to!(t.entries@[i as int] => t.entries@[i as int].1));
                        assert(es[i as int] == (t.entries@[i as int].0@, view_of_value(
                            t.entries@[i as int].1,
                        )));
                    }
                    let e = &t.entries[i];
                    let ghost before = out@;
                    if i > 0 {
                        out.append(", ");
                    }
                    out.append(e.0.as_str());
                    out.append(": ");
                    let rendered = e.1.as_string();
                    out.append(rendered.as_str());
                    proof {
                        let taken = es.take(i as int + 1);
                        assert(taken.last() == es[i as int]);
                        assert(taken.drop_last() =~= es.take(i as int));
                        assert(rendered@ == spec_display(es[i as int].1));
                        assert(e.0@ == es[i as int].0);
                        assert(spec_display_entry(es[i as int]) == es[i as int].0 + ": "@
                            + spec_display(es[i as int].1));
                        if i == 0 {
                            assert(taken.len() == 1);
                            assert(taken[0] == es[0]);
                            assert(es.take(0) =~= Seq::<(Seq<char>, ValueView)>::empty());
                            assert(before =~= "{ "@);
                            assert(out@ == before + e.0@ + ": "@ + rendered@);
                            assert(out@ =~= "{ "@ + spec_display_entries(taken));
                        } else {
                            assert(spec_display_entries(taken) == spec_display_entries(
                                es.take(i as int),
                            ) + ", "@ + spec_display_entry(es[i as int]));
                            assert(out@ == before + ", "@ + e.0@ + ": "@ + rendered@);
                            assert(out@ =~= "{ "@ + spec_display_entries(taken));
                        }
                    }
                    i = i + 1;
                }
                out.append(" }");
                proof {
                    assert(es.take(n as int) =~= es);
                    assert(out@ =~= "{ "@ + spec_display_entries(es) + " }"@);
                }
                out
            },
            ValueKind::Array(a) => {
                let ghost vs = view_of_values(a@);
                proof {
                    broadcast use group_value_views;

                    assert(self@.kind == KindView::Array(vs));
                    assert(decreases_to!(*self => self.kind));
                    assert(decreases_to!(self.kind => *a));
                    assert(decreases_to!(*a => a@));
                    assert(decreases_to!(*self => a@));
                }
                let mut out: String = "[ ".to_owned();
                let n = a.len();
                let mut i: usize = 0;
                while i < n
                    invariant
                        i <= n,
                        n == a@.len(),
                        vs == view_of_values(a@),
                        vs.len() == n,
                        out@ == "[ "@ + spec_display_items(vs.take(i as int)),
                        decreases_to!(*self => a@),
                    decreases n - i,
                {
                    proof {
                        broadcast use group_value_views;

                        assert(decreases_to!(a@ => a@[i as int]));
                        assert(vs[i as int] == view_of_value(a@[i as int]));
                    }
                    if i > 0 {
                        out.append(", ");
                    }
                    let rendered = a[i].as_string();
                    out.append(rendered.as_str());
                    proof {
                        let taken = vs.take(i as int + 1);
                        assert(taken.last() == vs[i as int]);
                        assert(taken.drop_last() =~= vs.take(i as int));
                        if i == 0 {
                            assert(taken.len() == 1);
                            assert(taken[0] == vs[0]);
                            assert(vs.take(0) =~= Seq::<ValueView>::empty());
                            assert(out@ =~= "[ "@ + spec_display_items(taken));
                        } else {
                            assert(spec_display_items(taken) == spec_display_items(
                                vs.take(i as int),
                            ) + ", "@ + spec_display(vs[i as int]));
                            assert(out@ =~= "[ "@ + spec_display_items(taken));
                        }
                    }
                    i = i + 1;
                }
                out.append(" ]");
                proof {
                    assert(vs.take(n as int) =~= vs);
                    assert(out@ =~= "[ "@ + spec_display_items(vs) + " ]"@);
                }
                out
            },
        }
    }
}

/// Rendering is deterministic: it depends on the value's model alone, so
/// structurally equal values display the same text on every call.
pub proof fn lemma_display_deterministic(a: ValueView, b: ValueView)
    requires
        a == b,
    ensures
        spec_display(a) == spec_display(b),
{
}

/// Binding a well-formed value in a well-formed table yields a
/// well-formed table.
pub proof fn lemma_table_insert_wf(es: Seq<(Seq<char>, ValueView)>, k: Seq<char>, v: ValueView)
    requires
        table_wf(es),
        wf_value(v),
    ensures
        table_wf(spec_table_insert(es, k, v)),
{
    lemma_table_insert_sorted(es, k, v);
    let r = spec_table_insert(es, k, v);
    lemma_wf_entry_values_char(es);
    lemma_wf_entry_values_char(r);
    assert forall|i: int| 0 <= i < r.len() implies #[trigger] wf_value(r[i].1) by {
        if r[i] != (k, v) {
            assert(es.contains(r[i]));
            let j = choose|j: int| 0 <= j < es.len() && es[j] == r[i];
            assert(wf_value(es[j].1));
        }
    }
}

} // verus!
