//! The path expression engine: parses a dotted and indexed key string
//! such as `items[0].name` into an ordered sequence of access steps, and
//! evaluates those steps against a value tree for reading and for
//! auto-vivifying writes.

use vstd::prelude::*;
use crate::error::ConfigError;
use crate::error::ErrorView;
use crate::strutil::lemma_digits_val_extend;
use crate::strutil::lemma_digits_val_nonneg;
use crate::strutil::spec_digits_val;
use crate::strutil::spec_is_digit;
use crate::strutil::str_eq;
use crate::value::group_value_views;
use crate::value::view_of_value;
use crate::value::view_of_values;
use crate::value::KindView;
use crate::value::Table;
use crate::value::Value;
use crate::value::ValueKind;
use crate::value::ValueView;
use crate::value::spec_table_get;
use crate::value::spec_table_insert;

verus! {

/// One access step of a parsed path expression: a field looked up by
/// name, or an array element addressed by position.
#[derive(Debug)]
pub enum Step {
    Key(String),
    Index(usize),
}

/// Mathematical model of one access step.
pub enum StepView {
    Key(Seq<char>),
    Index(int),
}

/// A parsed, reusable accessor: an ordered sequence of access steps,
/// immutable once parsed.
#[derive(Debug)]
pub struct Expression {
    pub(crate) steps: Vec<Step>,
}

/// The view of one step.
pub open spec fn view_of_step(s: Step) -> StepView {
    match s {
        Step::Key(k) => StepView::Key(k@),
        Step::Index(i) => StepView::Index(i as int),
    }
}

/// The views of a sequence of steps, elementwise.
pub open spec fn view_of_steps(s: Seq<Step>) -> Seq<StepView>
    decreases s,
{
    if s.len() == 0 {
        Seq::empty()
    } else {
        view_of_steps(s.drop_last()).push(view_of_step(s.last()))
    }
}

/// `view_of_steps` keeps the length.
pub broadcast proof fn lemma_view_of_steps_len(s: Seq<Step>)
    ensures
        (#[trigger] view_of_steps(s)).len() == s.len(),
    decreases s,
{
    if s.len() > 0 {
        lemma_view_of_steps_len(s.drop_last());
    }
}

/// `view_of_steps` maps the sequence elementwise.
pub broadcast proof fn lemma_view_of_steps_index(s: Seq<Step>, i: int)
    ensures
        0 <= i < s.len() ==> (#[trigger] view_of_steps(s)[i]) == view_of_step(s[i]),
    decreases s,
{
    lemma_view_of_steps_len(s);
    if s.len() > 0 {
        lemma_view_of_steps_index(s.drop_last(), i);
        lemma_view_of_steps_len(s.drop_last());
    }
}

/// Groups the elementwise facts about step views.
pub broadcast group group_step_views {
    lemma_view_of_steps_len,
    lemma_view_of_steps_index,
}

impl View for Step {
    type V = StepView;

    open spec fn view(&self) -> StepView {
        view_of_step(*self)
    }
}

impl View for Expression {
    type V = Seq<StepView>;

    open(crate) spec fn view(&self) -> Seq<StepView> {
        view_of_steps(self.steps@)
    }
}

// ---------------------------------------------------------------------
// The grammar
// ---------------------------------------------------------------------

/// Whether `c` may stand inside a key segment: everything but the three
/// structural characters.
pub open spec fn key_char(c: char) -> bool {
    c != '.' && c != '[' && c != ']'
}

/// The position just past the run of key characters starting at `i`.
pub open spec fn spec_run_end(s: Seq<char>, i: int) -> int
    decreases s.len() - i,
{
    if 0 <= i < s.len() && key_char(s[i]) {
        spec_run_end(s, i + 1)
    } else {
        i
    }
}

/// The position just past the run of decimal digits starting at `i`.
pub open spec fn spec_digits_end(s: Seq<char>, i: int) -> int
    decreases s.len() - i,
{
    if 0 <= i < s.len() && spec_is_digit(s[i]) {
        spec_digits_end(s, i + 1)
    } else {
        i
    }
}

/// Parses a key segment starting at `i` (which must be non-empty),
/// followed by the rest of the expression.
pub open spec fn spec_parse_key(s: Seq<char>, i: int) -> Option<Seq<StepView>>
    decreases s.len() - i, 1int,
        via spec_parse_key_dec
{
    let j = spec_run_end(s, i);
    if j == i {
        None
    } else {
        match spec_parse_rest(s, j) {
            Some(rest) => Some(seq![StepView::Key(s.subrange(i, j))] + rest),
            None => None,
        }
    }
}

/// Parses what may follow a key segment or an index at `i`: the end of
/// the text, a dot introducing the next key segment, or a bracketed
/// decimal index that fits the machine's word size.
pub open spec fn spec_parse_rest(s: Seq<char>, i: int) -> Option<Seq<StepView>>
    decreases s.len() - i, 0int,
        via spec_parse_rest_dec
{
    if i < 0 {
        None
    } else if i >= s.len() {
        Some(Seq::empty())
    } else if s[i] == '.' {
        spec_parse_key(s, i + 1)
    } else if s[i] == '[' {
        let j = spec_digits_end(s, i + 1);
        if j == i + 1 || j >= s.len() || s[j] != ']' || spec_digits_val(s.subrange(i + 1, j))
            > usize::MAX {
            None
        } else {
            match spec_parse_rest(s, j + 1) {
                Some(rest) => Some(
                    seq![StepView::Index(spec_digits_val(s.subrange(i + 1, j)))] + rest,
                ),
                None => None,
            }
        }
    } else {
        None
    }
}

proof fn lemma_scan_ge(s: Seq<char>, i: int)
    ensures
        spec_run_end(s, i) >= i,
        spec_digits_end(s, i) >= i,
        i <= s.len() ==> spec_run_end(s, i) <= s.len(),
        i <= s.len() ==> spec_digits_end(s, i) <= s.len(),
    decreases s.len() - i,
{
    if 0 <= i < s.len() {
        lemma_scan_ge(s, i + 1);
    }
}

#[via_fn]
proof fn spec_parse_key_dec(s: Seq<char>, i: int) {
    lemma_scan_ge(s, i);
}

#[via_fn]
proof fn spec_parse_rest_dec(s: Seq<char>, i: int) {
    lemma_scan_ge(s, i + 1);
}

/// The steps a key string parses to: a leading key segment, then any
/// chain of `.segment` and `[index]`; the empty string is rejected.
pub open spec fn spec_parse_expr(s: Seq<char>) -> Option<Seq<StepView>> {
    spec_parse_key(s, 0)
}

/// The position of the offending fragment when a key segment expected at
/// `i` fails to parse, found by mirroring the parse.
pub open spec fn spec_parse_key_errpos(s: Seq<char>, i: int) -> int
    decreases s.len() - i, 1int,
        via spec_parse_key_errpos_dec
{
    let j = spec_run_end(s, i);
    if j == i {
        i
    } else {
        spec_parse_rest_errpos(s, j)
    }
}

/// The position of the offending fragment when the rest of an expression
/// at `i` fails to parse.
pub open spec fn spec_parse_rest_errpos(s: Seq<char>, i: int) -> int
    decreases s.len() - i, 0int,
        via spec_parse_rest_errpos_dec
{
    if i < 0 || i >= s.len() {
        i
    } else if s[i] == '.' {
        spec_parse_key_errpos(s, i + 1)
    } else if s[i] == '[' {
        let j = spec_digits_end(s, i + 1);
        if j == i + 1 || j >= s.len() || s[j] != ']' || spec_digits_val(s.subrange(i + 1, j))
            > usize::MAX {
            i
        } else {
            spec_parse_rest_errpos(s, j + 1)
        }
    } else {
        i
    }
}

#[via_fn]
proof fn spec_parse_key_errpos_dec(s: Seq<char>, i: int) {
    lemma_scan_ge(s, i);
}

#[via_fn]
proof fn spec_parse_rest_errpos_dec(s: Seq<char>, i: int) {
    lemma_scan_ge(s, i + 1);
}

proof fn lemma_run_end_bounds(s: Seq<char>, i: int)
    requires
        0 <= i <= s.len(),
    ensures
        i <= spec_run_end(s, i) <= s.len(),
        i <= spec_digits_end(s, i) <= s.len(),
    decreases s.len() - i,
{
    if i < s.len() {
        lemma_run_end_bounds(s, i + 1);
    }
}

// ---------------------------------------------------------------------
// The executable parser
// ---------------------------------------------------------------------

fn run_end(s: &str, i: usize) -> (j: usize)
    requires
        i <= s@.len(),
    ensures
        j == spec_run_end(s@, i as int),
        i <= j <= s@.len(),
    decreases s@.len() - i,
{
    if i == s.unicode_len() {
        return i;
    }
    let c = s.get_char(i);
    if c != '.' && c != '[' && c != ']' {
        run_end(s, i + 1)
    } else {
        i
    }
}

fn digits_end(s: &str, i: usize) -> (j: usize)
    requires
        i <= s@.len(),
    ensures
        j == spec_digits_end(s@, i as int),
        i <= j <= s@.len(),
    decreases s@.len() - i,
{
    if i == s.unicode_len() {
        return i;
    }
    let c = s.get_char(i);
    if c >= '0' && c <= '9' {
        digits_end(s, i + 1)
    } else {
        i
    }
}

fn parse_error(s: &str, i: usize) -> (r: ConfigError)
    requires
        i <= s@.len(),
    ensures
        r@ == (ErrorView::ParseError { fragment: s@.skip(i as int) }),
{
    let fragment = s.substring_char(i, s.unicode_len()).to_owned();
    proof {
        assert(fragment@ =~= s@.skip(i as int));
    }
    ConfigError::ParseError { fragment }
}

/// Reads the decimal digits in `s[from..to]` as a machine word, exactly
/// when their value fits one.
fn digits_value(s: &str, from: usize, to: usize) -> (r: Option<usize>)
    requires
        from <= to <= s@.len(),
        forall|m: int| from <= m < to ==> spec_is_digit(s@[m]),
    ensures
        match r {
            Some(v) => v as int == spec_digits_val(s@.subrange(from as int, to as int)),
            None => spec_digits_val(s@.subrange(from as int, to as int)) > usize::MAX,
        },
{
    let ghost whole = s@.subrange(from as int, to as int);
    let mut val: usize = 0;
    let mut i: usize = from;
    while i < to
        invariant
            from <= i <= to <= s@.len(),
            whole == s@.subrange(from as int, to as int),
            forall|m: int| from <= m < to ==> spec_is_digit(s@[m]),
            val as int == spec_digits_val(s@.subrange(from as int, i as int)),
        decreases to - i,
    {
        let c = s.get_char(i);
        let d = ((c as u32) - 48) as usize;
        let ghost prefix = s@.subrange(from as int, i as int);
        let ghost prefix1 = s@.subrange(from as int, i as int + 1);
        proof {
            assert(spec_is_digit(s@[i as int]));
            assert(prefix1.drop_last() =~= prefix);
            assert(prefix1.last() == s@[i as int]);
            assert(forall|m: int| 0 <= m < prefix1.len() ==> spec_is_digit(prefix1[m]));
        }
        if val > (usize::MAX - d) / 10 {
            proof {
                assert(val * 10 + d > usize::MAX) by (nonlinear_arith)
                    requires
                        val > (usize::MAX - d) / 10,
                        d < 10,
                ;
                let rest = whole.skip(i as int + 1 - from);
                assert(whole =~= prefix1 + rest);
                assert(forall|m: int| 0 <= m < rest.len() ==> spec_is_digit(rest[m])) by {
                    assert(forall|m: int| 0 <= m < rest.len() ==> rest[m] == s@[m + i + 1]);
                }
                lemma_digits_val_extend(prefix1, rest);
                assert(spec_digits_val(whole) > usize::MAX);
            }
            return None;
        }
        proof {
            assert(val * 10 + d <= usize::MAX) by (nonlinear_arith)
                requires
                    val <= (usize::MAX - d) / 10,
                    d < 10,
            ;
        }
        val = val * 10 + d;
        i = i + 1;
    }
    proof {
        assert(s@.subrange(from as int, to as int) =~= whole);
    }
    Some(val)
}

fn parse_key_at(s: &str, i: usize) -> (r: Result<Vec<Step>, ConfigError>)
    requires
        i <= s@.len(),
    ensures
        match r {
            Ok(steps) => spec_parse_key(s@, i as int) == Some(view_of_steps(steps@)),
            Err(e) => spec_parse_key(s@, i as int) is None && e@ == (ErrorView::ParseError {
                fragment: s@.skip(spec_parse_key_errpos(s@, i as int)),
            }),
        },
    decreases s@.len() - i, 1int,
{
    broadcast use group_step_views;

    let j = run_end(s, i);
    if j == i {
        return Err(parse_error(s, i));
    }
    match parse_rest_at(s, j) {
        Ok(mut rest) => {
            let key = s.substring_char(i, j).to_owned();
            rest.insert(0, Step::Key(key));
            proof {
                assert(view_of_steps(rest@) =~= seq![StepView::Key(s@.subrange(i as int, j as int))]
                    + view_of_steps(rest@.drop_first()));
            }
            Ok(rest)
        },
        Err(e) => Err(e),
    }
}

fn parse_rest_at(s: &str, i: usize) -> (r: Result<Vec<Step>, ConfigError>)
    requires
        i <= s@.len(),
    ensures
        match r {
            Ok(steps) => spec_parse_rest(s@, i as int) == Some(view_of_steps(steps@)),
            Err(e) => spec_parse_rest(s@, i as int) is None && e@ == (ErrorView::ParseError {
                fragment: s@.skip(spec_parse_rest_errpos(s@, i as int)),
            }),
        },
    decreases s@.len() - i, 0int,
{
    broadcast use group_step_views;

    if i == s.unicode_len() {
        let steps: Vec<Step> = Vec::new();
        proof {
            assert(view_of_steps(steps@) =~= Seq::<StepView>::empty());
        }
        return Ok(steps);
    }
    let c = s.get_char(i);
    if c == '.' {
        parse_key_at(s, i + 1)
    } else if c == '[' {
        let j = digits_end(s, i + 1);
        if j == i + 1 {
            return Err(parse_error(s, i));
        }
        if j == s.unicode_len() {
            return Err(parse_error(s, i));
        }
        if s.get_char(j) != ']' {
            return Err(parse_error(s, i));
        }
        proof {
            assert(forall|m: int| i + 1 <= m < j ==> spec_is_digit(s@[m])) by {
                assert(spec_digits_end(s@, i as int + 1) == j);
                lemma_digits_run(s@, i as int + 1, j as int);
            }
        }
        let idx = match digits_value(s, i + 1, j) {
            Some(v) => v,
            None => {
                return Err(parse_error(s, i));
            },
        };
        match parse_rest_at(s, j + 1) {
            Ok(mut rest) => {
                rest.insert(0, Step::Index(idx));
                proof {
                    assert(view_of_steps(rest@) =~= seq![
                        StepView::Index(spec_digits_val(s@.subrange(i as int + 1, j as int))),
                    ] + view_of_steps(rest@.drop_first()));
                }
                Ok(rest)
            },
            Err(e) => Err(e),
        }
    } else {
        Err(parse_error(s, i))
    }
}

proof fn lemma_digits_run(s: Seq<char>, i: int, j: int)
    requires
        0 <= i <= s.len(),
        j == spec_digits_end(s, i),
    ensures
        forall|m: int| i <= m < j ==> spec_is_digit(s[m]),
    decreases s.len() - i,
{
    lemma_run_end_bounds(s, i);
    if i < s.len() && spec_is_digit(s[i]) {
        lemma_digits_run(s, i + 1, j);
    }
}

impl Expression {
    /// Parses a key string into an expression, exactly when the text
    /// matches the path grammar: a key segment, then any chain of
    /// `.segment` and `[index]`.
    pub fn parse(text: &str) -> (r: Result<Expression, ConfigError>)
        ensures
            match r {
                Ok(e) => spec_parse_expr(text@) == Some(e@),
                Err(e) => spec_parse_expr(text@) is None && e@ == (ErrorView::ParseError {
                    fragment: text@.skip(spec_parse_key_errpos(text@, 0)),
                }),
            },
    {
        match parse_key_at(text, 0) {
            Ok(steps) => Ok(Expression { steps }),
            Err(e) => Err(e),
        }
    }

    /// The number of steps.
    pub fn len(&self) -> (n: usize)
        ensures
            n == self@.len(),
    {
        proof {
            broadcast use group_step_views;

        }
        self.steps.len()
    }

    /// Structural equality of two expressions.
    pub fn eq_expr(&self, other: &Expression) -> (r: bool)
        ensures
            r == (self@ == other@),
    {
        broadcast use group_step_views;

        let n = self.steps.len();
        if n != other.steps.len() {
            proof {
                assert(self@.len() != other@.len());
            }
            return false;
        }
        let mut i: usize = 0;
        while i < n
            invariant
                i <= n,
                n == self.steps@.len(),
                n == other.steps@.len(),
                forall|j: int| 0 <= j < i ==> view_of_step(self.steps@[j]) == view_of_step(
                    other.steps@[j],
                ),
            decreases n - i,
        {
            proof {
                broadcast use group_step_views;

            }
            let same = match (&self.steps[i], &other.steps[i]) {
                (Step::Key(a), Step::Key(b)) => str_eq(a.as_str(), b.as_str()),
                (Step::Index(a), Step::Index(b)) => *a == *b,
                _ => false,
            };
            if !same {
                proof {
                    broadcast use group_step_views;

                    assert(self@[i as int] == view_of_step(self.steps@[i as int]));
                    assert(other@[i as int] == view_of_step(other.steps@[i as int]));
                }
                return false;
            }
            i = i + 1;
        }
        proof {
            broadcast use group_step_views;

            assert(self@ =~= other@);
        }
        true
    }
}

// ---------------------------------------------------------------------
// Read traversal
// ---------------------------------------------------------------------

/// The value the steps address inside `v`, if the shapes along the way
/// match: a key step requires a table holding the key, an index step an
/// array long enough; anything else resolves to nothing.
pub open spec fn spec_read(v: ValueView, steps: Seq<StepView>) -> Option<ValueView>
    decreases steps.len(),
{
    if steps.len() == 0 {
        Some(v)
    } else {
        match steps[0] {
            StepView::Key(k) => match v.kind {
                KindView::Table(es) => match spec_table_get(es, k) {
                    Some(child) => spec_read(child, steps.drop_first()),
                    None => None,
                },
                _ => None,
            },
            StepView::Index(i) => match v.kind {
                KindView::Array(vs) => if 0 <= i < vs.len() {
                    spec_read(vs[i], steps.drop_first())
                } else {
                    None
                },
                _ => None,
            },
        }
    }
}

fn get_from<'a>(steps: &Vec<Step>, pos: usize, node: &'a Value) -> (r: Option<&'a Value>)
    requires
        pos <= steps@.len(),
    ensures
        match r {
            Some(v) => spec_read(node@, view_of_steps(steps@).skip(pos as int)) == Some(v@),
            None => spec_read(node@, view_of_steps(steps@).skip(pos as int)) is None,
        },
    decreases steps@.len() - pos,
{
    broadcast use group_step_views;
    broadcast use group_value_views;

    let ghost remaining = view_of_steps(steps@).skip(pos as int);
    if pos == steps.len() {
        proof {
            assert(remaining =~= Seq::<StepView>::empty());
        }
        return Some(node);
    }
    proof {
        assert(remaining[0] == view_of_step(steps@[pos as int]));
        assert(remaining.drop_first() =~= view_of_steps(steps@).skip(pos as int + 1));
    }
    match &steps[pos] {
        Step::Key(k) => match &node.kind {
            ValueKind::Table(t) => {
                proof {
                    assert(node@.kind == KindView::Table(t@));
                }
                match t.get(k.as_str()) {
                    Some(child) => get_from(steps, pos + 1, child),
                    None => None,
                }
            },
            _ => None,
        },
        Step::Index(i) => match &node.kind {
            ValueKind::Array(a) => {
                proof {
                    assert(node@.kind == KindView::Array(view_of_values(a@)));
                }
                if *i < a.len() {
                    get_from(steps, pos + 1, &a[*i])
                } else {
                    None
                }
            },
            _ => None,
        },
    }
}

// ---------------------------------------------------------------------
// Write traversal
// ---------------------------------------------------------------------

/// A nil value with no provenance, used to pad sparse arrays.
pub open spec fn nil_view() -> ValueView {
    ValueView { origin: None, kind: KindView::Nil }
}

/// The tree after writing `val` at the location the steps address,
/// creating missing structure on the way: a key step turns anything that
/// is not a table into a fresh empty table and descends into the key's
/// binding (or nil where the key is absent); an index step turns
/// anything that is not an array into a fresh empty array, extends it
/// with nil up to the index, and descends into that position. The final
/// step's target is replaced by `val` outright; a write never fails on a
/// shape conflict.
pub open spec fn spec_write(v: ValueView, steps: Seq<StepView>, val: ValueView) -> ValueView
    decreases steps.len(),
{
    if steps.len() == 0 {
        val
    } else {
        match steps[0] {
            StepView::Key(k) => {
                let es = match v.kind {
                    KindView::Table(es) => es,
                    _ => Seq::empty(),
                };
                let origin = match v.kind {
                    KindView::Table(_) => v.origin,
                    _ => None,
                };
                let child = match spec_table_get(es, k) {
                    Some(c) => c,
                    None => nil_view(),
                };
                ValueView {
                    origin,
                    kind: KindView::Table(
                        spec_table_insert(es, k, spec_write(child, steps.drop_first(), val)),
                    ),
                }
            },
            StepView::Index(i) => {
                if i < 0 {
                    v
                } else {
                    let vs = match v.kind {
                        KindView::Array(vs) => vs,
                        _ => Seq::empty(),
                    };
                    let origin = match v.kind {
                        KindView::Array(_) => v.origin,
                        _ => None,
                    };
                    let padded = if vs.len() >= i + 1 {
                        vs
                    } else {
                        vs + Seq::new((i + 1 - vs.len()) as nat, |j: int| nil_view())
                    };
                    let child = if i < vs.len() {
                        vs[i]
                    } else {
                        nil_view()
                    };
                    ValueView {
                        origin,
                        kind: KindView::Array(
                            padded.update(i, spec_write(child, steps.drop_first(), val)),
                        ),
                    }
                }
            },
        }
    }
}

fn write_from(steps: &Vec<Step>, pos: usize, node: Value, val: Value) -> (r: Value)
    requires
        pos <= steps@.len(),
    ensures
        r@ == spec_write(node@, view_of_steps(steps@).skip(pos as int), val@),
    decreases steps@.len() - pos,
{
    broadcast use group_step_views;
    broadcast use group_value_views;

    let ghost remaining = view_of_steps(steps@).skip(pos as int);
    if pos == steps.len() {
        proof {
            assert(remaining =~= Seq::<StepView>::empty());
        }
        return val;
    }
    proof {
        assert(remaining[0] == view_of_step(steps@[pos as int]));
        assert(remaining.drop_first() =~= view_of_steps(steps@).skip(pos as int + 1));
    }
    match &steps[pos] {
        Step::Key(k) => {
            let ghost v0 = node@;
            let Value { origin, kind } = node;
            let (kept, mut table): (Option<String>, Table) = match kind {
                ValueKind::Table(t) => (origin, t),
                _ => (None, Table::new()),
            };
            let ghost es = table@;
            proof {
                match v0.kind {
                    KindView::Table(es0) => {
                        assert(es == es0);
                    },
                    _ => {
                        assert(es =~= Seq::<(Seq<char>, ValueView)>::empty());
                    },
                }
            }
            let child: Value = match table.get(k.as_str()) {
                Some(c) => c.clone(),
                None => Value::new(None, ValueKind::Nil),
            };
            let new_child = write_from(steps, pos + 1, child, val);
            table.insert(k.clone(), new_child);
            let r = Value { origin: kept, kind: ValueKind::Table(table) };
            proof {
                assert(r@.kind == KindView::Table(
                    spec_table_insert(es, k@, spec_write(spec_write_child(es, k@), remaining.drop_first(), val@)),
                ));
            }
            r
        },
        Step::Index(i) => {
            let idx: usize = *i;
            let ghost v0 = node@;
            let Value { origin, kind } = node;
            let (kept, mut arr): (Option<String>, Vec<Value>) = match kind {
                ValueKind::Array(a) => (origin, a),
                _ => (None, Vec::new()),
            };
            let ghost vs = view_of_values(arr@);
            proof {
                match v0.kind {
                    KindView::Array(vs0) => {
                        assert(vs == vs0);
                    },
                    _ => {
                        assert(vs =~= Seq::<ValueView>::empty());
                    },
                }
            }
            let ghost n0 = arr@.len();
            while arr.len() <= idx
                invariant
                    n0 <= arr@.len(),
                    arr@.len() == n0 || arr@.len() <= idx + 1,
                    vs.len() == n0,
                    forall|j: int| 0 <= j < n0 ==> view_of_value(arr@[j]) == vs[j],
                    forall|j: int| n0 <= j < arr@.len() ==> view_of_value(arr@[j]) == nil_view(),
                decreases idx + 1 - arr@.len(),
            {
                arr.push(Value { origin: None, kind: ValueKind::Nil });
            }
            let ghost padded = if vs.len() >= idx + 1 {
                vs
            } else {
                vs + Seq::new((idx + 1 - vs.len()) as nat, |j: int| nil_view())
            };
            proof {
                broadcast use group_value_views;

                assert(view_of_values(arr@) =~= padded);
            }
            let child = arr[idx].clone();
            proof {
                if idx < n0 {
                    assert(child@ == vs[idx as int]);
                } else {
                    assert(child@ == nil_view());
                }
            }
            let new_child = write_from(steps, pos + 1, child, val);
            arr[idx] = new_child;
            let r = Value { origin: kept, kind: ValueKind::Array(arr) };
            proof {
                broadcast use group_value_views;

                assert(view_of_values(arr@) =~= padded.update(
                    idx as int,
                    spec_write(
                        if idx < n0 {
                            vs[idx as int]
                        } else {
                            nil_view()
                        },
                        remaining.drop_first(),
                        val@,
                    ),
                ));
            }
            r
        },
    }
}

/// The existing binding the first key step descends into, or nil.
pub open spec fn spec_write_child(es: Seq<(Seq<char>, ValueView)>, k: Seq<char>) -> ValueView {
    match spec_table_get(es, k) {
        Some(c) => c,
        None => nil_view(),
    }
}

impl Expression {
    /// Walks the steps against an existing tree without changing it; the
    /// result is exactly what the steps address, if anything.
    pub fn get<'a>(&self, root: &'a Value) -> (r: Option<&'a Value>)
        ensures
            match r {
                Some(v) => spec_read(root@, self@) == Some(v@),
                None => spec_read(root@, self@) is None,
            },
    {
        let r = get_from(&self.steps, 0, root);
        proof {
            assert(view_of_steps(self.steps@).skip(0) =~= self@);
        }
        r
    }

    /// Writes `value` at the location the steps address, creating
    /// intermediate tables and arrays as needed and replacing whatever
    /// was there; a write never fails.
    pub fn set(&self, root: &mut Value, value: Value)
        ensures
            final(root)@ == spec_write(old(root)@, self@, value@),
    {
        let mut owned = Value::new(None, ValueKind::Nil);
        core::mem::swap(root, &mut owned);
        let written = write_from(&self.steps, 0, owned, value);
        proof {
            assert(view_of_steps(self.steps@).skip(0) =~= self@);
        }
        *root = written;
    }
}

// ---------------------------------------------------------------------
// Laws of the write traversal
// ---------------------------------------------------------------------

/// Whether every index step is non-negative and fits the machine word,
/// as every parsed expression's steps do.
pub open spec fn steps_wf(steps: Seq<StepView>) -> bool {
    forall|j: int|
        0 <= j < steps.len() ==> ((#[trigger] steps[j]) matches StepView::Index(i) ==> 0 <= i
            <= usize::MAX)
}

proof fn lemma_table_wf_drop_first(es: Seq<(Seq<char>, ValueView)>)
    requires
        crate::value::table_wf(es),
        es.len() > 0,
    ensures
        crate::value::table_wf(es.drop_first()),
{
    let tail = es.drop_first();
    crate::value::lemma_wf_entry_values_char(es);
    crate::value::lemma_wf_entry_values_char(tail);
    assert forall|i: int, j: int| 0 <= i < j < tail.len() implies crate::strutil::lex_lt(
        tail[i].0,
        tail[j].0,
    ) by {
        assert(tail[i] == es[i + 1]);
        assert(tail[j] == es[j + 1]);
        assert(crate::strutil::lex_lt(es[i + 1].0, es[j + 1].0));
    }
    assert forall|i: int| 0 <= i < tail.len() implies #[trigger] crate::value::wf_value(
        tail[i].1,
    ) by {
        assert(tail[i] == es[i + 1]);
        assert(crate::value::wf_value(es[i + 1].1));
    }
}

/// Looking up any key in a well-formed table yields a well-formed value.
pub proof fn lemma_table_get_wf(es: Seq<(Seq<char>, ValueView)>, k: Seq<char>)
    requires
        crate::value::table_wf(es),
    ensures
        spec_table_get(es, k) matches Some(c) ==> crate::value::wf_value(c),
    decreases es.len(),
{
    if es.len() > 0 {
        crate::value::lemma_wf_entry_values_char(es);
        assert(crate::value::wf_value(es[0].1));
        if es[0].0 != k {
            lemma_table_wf_drop_first(es);
            lemma_table_get_wf(es.drop_first(), k);
        }
    }
}

/// A write into a well-formed tree with a well-formed value leaves the
/// tree well-formed: every table it builds or rebuilds stays sorted with
/// unique keys.
pub proof fn lemma_write_wf(v: ValueView, steps: Seq<StepView>, val: ValueView)
    requires
        crate::value::wf_value(v),
        crate::value::wf_value(val),
    ensures
        crate::value::wf_value(spec_write(v, steps, val)),
    decreases steps.len(),
{
    if steps.len() > 0 {
        match steps[0] {
            StepView::Key(k) => {
                let es = match v.kind {
                    KindView::Table(es) => es,
                    _ => Seq::<(Seq<char>, ValueView)>::empty(),
                };
                assert(crate::value::table_wf(es)) by {
                    match v.kind {
                        KindView::Table(es0) => {
                        },
                        _ => {
                            assert(es.len() == 0);
                        },
                    }
                }
                let child = spec_write_child(es, k);
                lemma_table_get_wf(es, k);
                assert(crate::value::wf_value(child));
                lemma_write_wf(child, steps.drop_first(), val);
                crate::value::lemma_table_insert_wf(
                    es,
                    k,
                    spec_write(child, steps.drop_first(), val),
                );
                let r = spec_write(v, steps, val);
                assert(r.kind == KindView::Table(
                    spec_table_insert(es, k, spec_write(child, steps.drop_first(), val)),
                ));
            },
            StepView::Index(i) => {
                if i >= 0 {
                    let vs = match v.kind {
                        KindView::Array(vs) => vs,
                        _ => Seq::<ValueView>::empty(),
                    };
                    assert(crate::value::wf_items(vs)) by {
                        match v.kind {
                            KindView::Array(vs0) => {
                            },
                            _ => {
                                assert(vs.len() == 0);
                            },
                        }
                    }
                    crate::value::lemma_wf_items_char(vs);
                    let padded = if vs.len() >= i + 1 {
                        vs
                    } else {
                        vs + Seq::new((i + 1 - vs.len()) as nat, |j: int| nil_view())
                    };
                    let child = if i < vs.len() {
                        vs[i]
                    } else {
                        nil_view()
                    };
                    assert(crate::value::wf_value(nil_view()));
                    lemma_write_wf(child, steps.drop_first(), val);
                    let updated = padded.update(i, spec_write(child, steps.drop_first(), val));
                    assert forall|j: int| 0 <= j < updated.len() implies #[trigger] crate::value::wf_value(
                        updated[j],
                    ) by {
                        if j != i {
                            if j < vs.len() {
                                assert(updated[j] == vs[j]);
                            } else {
                                assert(updated[j] == nil_view());
                            }
                        }
                    }
                    crate::value::lemma_wf_items_char(updated);
                    let r = spec_write(v, steps, val);
                    assert(r.kind == KindView::Array(updated));
                }
            },
        }
    }
}

/// Every expression the parser accepts has well-formed steps: index
/// steps are non-negative and fit the machine word.
pub proof fn lemma_parse_key_wf(s: Seq<char>, i: int)
    ensures
        spec_parse_key(s, i) matches Some(st) ==> steps_wf(st),
    decreases s.len() - i, 1int,
{
    lemma_scan_ge(s, i);
    let j = spec_run_end(s, i);
    if j != i {
        match spec_parse_rest(s, j) {
            Some(rest) => {
                lemma_parse_rest_wf(s, j);
                let st = seq![StepView::Key(s.subrange(i, j))] + rest;
                assert forall|m: int| 0 <= m < st.len() implies ((#[trigger] st[m])
                    matches StepView::Index(x) ==> 0 <= x <= usize::MAX) by {
                    if m > 0 {
                        assert(st[m] == rest[m - 1]);
                    }
                }
            },
            None => {},
        }
    }
}

/// As `lemma_parse_key_wf`, for the rest of an expression.
pub proof fn lemma_parse_rest_wf(s: Seq<char>, i: int)
    ensures
        spec_parse_rest(s, i) matches Some(st) ==> steps_wf(st),
    decreases s.len() - i, 0int,
{
    if i < 0 || i >= s.len() {
    } else if s[i] == '.' {
        lemma_parse_key_wf(s, i + 1);
    } else if s[i] == '[' {
        lemma_scan_ge(s, i + 1);
        let j = spec_digits_end(s, i + 1);
        if !(j == i + 1 || j >= s.len() || s[j] != ']' || spec_digits_val(s.subrange(i + 1, j))
            > usize::MAX) {
            let digits = s.subrange(i + 1, j);
            lemma_digits_run(s, i + 1, j);
            assert(forall|m: int| 0 <= m < digits.len() ==> spec_is_digit(digits[m]));
            lemma_digits_val_nonneg(digits);
            lemma_parse_rest_wf(s, j + 1);
            match spec_parse_rest(s, j + 1) {
                Some(rest) => {
                    let st = seq![StepView::Index(spec_digits_val(digits))] + rest;
                    assert forall|m: int| 0 <= m < st.len() implies ((#[trigger] st[m])
                        matches StepView::Index(x) ==> 0 <= x <= usize::MAX) by {
                        if m > 0 {
                            assert(st[m] == rest[m - 1]);
                        }
                    }
                },
                None => {},
            }
        }
    }
}

/// A single index write behaves as sparse assignment: the array keeps
/// its elements, grows with nil only up to the index, and never shrinks
/// or reorders.
pub proof fn lemma_index_write_shape(v: ValueView, i: int, val: ValueView)
    requires
        0 <= i,
        v.kind matches KindView::Array(vs),
    ensures
        match (v.kind, spec_write(v, seq![StepView::Index(i)], val).kind) {
            (KindView::Array(vs), KindView::Array(vs2)) => {
                &&& vs2.len() == (if vs.len() >= i + 1 {
                    vs.len() as int
                } else {
                    i + 1
                })
                &&& vs2[i] == val
                &&& (forall|j: int| 0 <= j < vs.len() && j != i ==> vs2[j] == vs[j])
                &&& (forall|j: int| vs.len() <= j < vs2.len() && j != i ==> vs2[j] == nil_view())
            },
            _ => false,
        },
        spec_write(v, seq![StepView::Index(i)], val).origin == v.origin,
{
    let steps = seq![StepView::Index(i)];
    assert(steps[0] == StepView::Index(i));
    assert(steps.drop_first() =~= Seq::<StepView>::empty());
    match v.kind {
        KindView::Array(vs) => {
            let padded = if vs.len() >= i + 1 {
                vs
            } else {
                vs + Seq::new((i + 1 - vs.len()) as nat, |j: int| nil_view())
            };
            let child = if i < vs.len() {
                vs[i]
            } else {
                nil_view()
            };
            assert(spec_write(child, steps.drop_first(), val) == val);
            let r = spec_write(v, steps, val);
            assert(r.kind == KindView::Array(padded.update(i, val)));
        },
        _ => {
            assert(false);
        },
    }
}

/// Writing then reading the same path finds exactly the written value:
/// auto-vivification always creates enough structure for the read to
/// succeed.
pub proof fn lemma_write_read(v: ValueView, steps: Seq<StepView>, val: ValueView)
    requires
        steps_wf(steps),
    ensures
        spec_read(spec_write(v, steps, val), steps) == Some(val),
    decreases steps.len(),
{
    if steps.len() > 0 {
        assert(steps_wf(steps.drop_first())) by {
            assert(forall|j: int|
                0 <= j < steps.drop_first().len() ==> steps.drop_first()[j] == steps[j + 1]);
        }
        match steps[0] {
            StepView::Key(k) => {
                let es = match v.kind {
                    KindView::Table(es) => es,
                    _ => Seq::<(Seq<char>, ValueView)>::empty(),
                };
                let child = spec_write_child(es, k);
                let nc = spec_write(child, steps.drop_first(), val);
                crate::value::lemma_table_insert_get(es, k, nc);
                lemma_write_read(child, steps.drop_first(), val);
            },
            StepView::Index(i) => {
                assert(steps[0] matches StepView::Index(n) ==> 0 <= n <= usize::MAX);
                assert(0 <= i);
                let vs = match v.kind {
                    KindView::Array(vs) => vs,
                    _ => Seq::<ValueView>::empty(),
                };
                let padded = if vs.len() >= i + 1 {
                    vs
                } else {
                    vs + Seq::new((i + 1 - vs.len()) as nat, |j: int| nil_view())
                };
                let child = if i < vs.len() {
                    vs[i]
                } else {
                    nil_view()
                };
                let nc = spec_write(child, steps.drop_first(), val);
                let updated = padded.update(i, nc);
                assert(updated.len() >= i + 1);
                assert(updated[i] == nc);
                lemma_write_read(child, steps.drop_first(), val);
            },
        }
    }
}

} // verus!
