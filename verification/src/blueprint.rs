//! Extraction blueprints: the declarative description of how relational
//! tables map to objects, events and relations of an object-centric log.
//!
//! The engine that runs a blueprint against a database is an external
//! collaborator; this module holds the blueprint's own logic: indexed row
//! access, value expressions with templates, timestamp parsing, change-table
//! conditions and the per-table usage configuration.
use crate::outside::{
    chars_vec, chrono_date_parse, chrono_datetime_parse, chrono_rfc_parse,
    parse_naive_date_millis, parse_naive_datetime_millis, parse_rfc_datetime_millis,
};
use crate::text::{dec_digits, decimal_string_u64, push_chars};
use vstd::prelude::*;
use vstd::string::StringExecFns;

verus! {

/// One cell of a fetched row: a plain value. Floats are carried as IEEE 754
/// bit patterns and yield no string form.
#[derive(Debug)]
pub enum RowValue {
    Text(String),
    Integer(i64),
    Float(u64),
    Boolean(bool),
    Null,
}

/// Ghost model of a [`RowValue`].
pub enum RowVal {
    Text(Seq<char>),
    Integer(i64),
    Float(u64),
    Boolean(bool),
    Null,
}

impl DeepView for RowValue {
    type V = RowVal;

    open spec fn deep_view(&self) -> RowVal {
        match self {
            RowValue::Text(s) => RowVal::Text(s@),
            RowValue::Integer(i) => RowVal::Integer(*i),
            RowValue::Float(f) => RowVal::Float(*f),
            RowValue::Boolean(b) => RowVal::Boolean(*b),
            RowValue::Null => RowVal::Null,
        }
    }
}

/// The decimal text of a signed integer.
pub open spec fn int_dec_chars(i: i64) -> Seq<char> {
    if i >= 0 {
        dec_digits(i as nat)
    } else {
        seq!['-'] + dec_digits((0 - i) as nat)
    }
}

/// The string form of a cell: text itself, numbers and booleans rendered,
/// null and floats none.
pub open spec fn row_string(v: RowVal) -> Option<Seq<char>> {
    match v {
        RowVal::Text(s) => Some(s),
        RowVal::Integer(i) => Some(int_dec_chars(i)),
        RowVal::Boolean(b) => Some(
            if b {
                "true"@
            } else {
                "false"@
            },
        ),
        RowVal::Float(_) => None,
        RowVal::Null => None,
    }
}

/// Maps column names to their position in a row, last declaration winning.
pub type ColumnIndex = Vec<(String, usize)>;

/// Builds a column index from a list of column names: each name paired with
/// its position.
pub fn build_column_index(columns: &Vec<String>) -> (r: ColumnIndex)
    ensures
        r@.len() == columns@.len(),
        forall|k: int|
            0 <= k < r@.len() ==> (#[trigger] r@[k]).0@ == columns@[k]@ && r@[k].1 == k,
{
    let mut out: ColumnIndex = Vec::new();
    let n = columns.len();
    let mut i: usize = 0;
    while i < n
        invariant
            n == columns@.len(),
            i <= n,
            out@.len() == i,
            forall|k: int|
                0 <= k < i ==> (#[trigger] out@[k]).0@ == columns@[k]@ && out@[k].1 == k,
        decreases n - i,
    {
        out.push((columns[i].clone(), i));
        i = i + 1;
    }
    out
}

/// The position recorded for `col`, reading the index from the back so a
/// later duplicate declaration wins.
pub open spec fn col_lookup(index: Seq<(Seq<char>, usize)>, col: Seq<char>) -> Option<usize>
    decreases index.len(),
{
    if index.len() == 0 {
        None
    } else if index.last().0 == col {
        Some(index.last().1)
    } else {
        col_lookup(index.drop_last(), col)
    }
}

/// The cell stored under `col`, if the column is indexed and in range.
pub open spec fn row_get(values: Seq<RowVal>, index: Seq<(Seq<char>, usize)>, col: Seq<char>) -> Option<RowVal> {
    match col_lookup(index, col) {
        Some(pos) => if pos < values.len() {
            Some(values[pos as int])
        } else {
            None
        },
        None => None,
    }
}

/// The string form of the cell stored under `col`.
pub open spec fn row_get_string(
    values: Seq<RowVal>,
    index: Seq<(Seq<char>, usize)>,
    col: Seq<char>,
) -> Option<Seq<char>> {
    match row_get(values, index, col) {
        Some(v) => row_string(v),
        None => None,
    }
}

/// A row of data with indexed column access.
pub struct IndexedRow<'a> {
    pub values: &'a Vec<RowValue>,
    pub index: &'a ColumnIndex,
}

impl<'a> IndexedRow<'a> {
    /// The cell of the named column, if present.
    pub fn get(&self, column: &String) -> (r: Option<&RowValue>)
        ensures
            match r {
                Some(v) => row_get(self.values.deep_view(), self.index.deep_view(), column@)
                    == Some(v.deep_view()),
                None => row_get(self.values.deep_view(), self.index.deep_view(), column@) is None,
            },
    {
        let n = self.index.len();
        let mut i: usize = n;
        proof {
            assert(self.index.deep_view().take(n as int) =~= self.index.deep_view());
        }
        while i > 0
            invariant
                n == self.index@.len(),
                i <= n,
                col_lookup(self.index.deep_view(), column@) == col_lookup(
                    self.index.deep_view().take(i as int),
                    column@,
                ),
            decreases i,
        {
            proof {
                assert(self.index.deep_view().take(i as int).last() == self.index.deep_view()[
                    i - 1
                ]);
                assert(self.index.deep_view().take(i as int).drop_last()
                    =~= self.index.deep_view().take(i - 1));
                assert(self.index.deep_view()[i - 1].0 == self.index@[i - 1].0@);
            }
            if self.index[i - 1].0 == *column {
                let pos = self.index[i - 1].1;
                if pos < self.values.len() {
                    proof {
                        assert(self.values.deep_view()[pos as int] == self.values@[
                            pos as int
                        ].deep_view());
                    }
                    return Some(&self.values[pos]);
                } else {
                    return None;
                }
            }
            i = i - 1;
        }
        proof {
            assert(self.index.deep_view().take(0) =~= Seq::<(Seq<char>, usize)>::empty());
        }
        None
    }

    /// The string form of the named column's cell, if present.
    pub fn get_string(&self, column: &String) -> (r: Option<String>)
        ensures
            match r {
                Some(s) => row_get_string(self.values.deep_view(), self.index.deep_view(), column@)
                    == Some(s@),
                None => row_get_string(
                    self.values.deep_view(),
                    self.index.deep_view(),
                    column@,
                ) is None,
            },
    {
        let v = match self.get(column) {
            Some(v) => v,
            None => {
                return None;
            },
        };
        match v {
            RowValue::Text(s) => Some(s.clone()),
            RowValue::Integer(i) => Some(int_to_string(*i)),
            RowValue::Boolean(b) => Some(
                if *b {
                    "true".to_owned()
                } else {
                    "false".to_owned()
                },
            ),
            RowValue::Float(_) => None,
            RowValue::Null => None,
        }
    }
}

/// Renders a signed integer as decimal text.
pub fn int_to_string(i: i64) -> (r: String)
    ensures
        r@ == int_dec_chars(i),
{
    if i >= 0 {
        let s = decimal_string_u64(i as u64);
        proof {
            assert(s@ =~= int_dec_chars(i));
        }
        s
    } else {
        let mut s: String = "-".to_owned();
        let mag: u64 = if i == i64::MIN {
            0x8000_0000_0000_0000
        } else {
            (-i) as u64
        };
        let digits = decimal_string_u64(mag);
        s.append(digits.as_str());
        proof {
            reveal_strlit("-");
            assert(s@ =~= int_dec_chars(i));
        }
        s
    }
}

/// A value derived from column data: a column reference, a constant, or a
/// template with `{column}` placeholders.
#[derive(Debug)]
pub enum ValueExpression {
    Column { column: String },
    Constant { value: String },
    Template { template: String },
}

/// Ghost model of a [`ValueExpression`].
pub enum ValueExpressionModel {
    Column { column: Seq<char> },
    Constant { value: Seq<char> },
    Template { template: Seq<char> },
}

impl DeepView for ValueExpression {
    type V = ValueExpressionModel;

    open spec fn deep_view(&self) -> ValueExpressionModel {
        match self {
            ValueExpression::Column { column } => ValueExpressionModel::Column { column: column@ },
            ValueExpression::Constant { value } => ValueExpressionModel::Constant { value: value@ },
            ValueExpression::Template { template } => ValueExpressionModel::Template {
                template: template@,
            },
        }
    }
}

/// The first position at or after `i` holding `c`.
pub open spec fn find_char_from(s: Seq<char>, c: char, i: int) -> Option<int>
    decreases s.len() - i,
{
    if i < 0 || i >= s.len() {
        None
    } else if s[i] == c {
        Some(i)
    } else {
        find_char_from(s, c, i + 1)
    }
}

/// A found position lies at or after the start and before the length.
proof fn lemma_find_char_range(s: Seq<char>, c: char, i: int)
    ensures
        find_char_from(s, c, i) matches Some(j) ==> i <= j < s.len() && s[j] == c,
    decreases s.len() - i,
{
    if 0 <= i < s.len() && s[i] != c {
        lemma_find_char_range(s, c, i + 1);
    }
}

/// The expansion of the template from position `i` on: literal text copied,
/// each `{column}` placeholder replaced by the column's string form, a
/// placeholder with an unknown or unprintable column left in place, and
/// everything after an unmatched `{` copied verbatim.
pub open spec fn template_eval_from(
    t: Seq<char>,
    i: int,
    values: Seq<RowVal>,
    index: Seq<(Seq<char>, usize)>,
) -> Seq<char>
    decreases t.len() - i,
{
    if i < 0 || i >= t.len() {
        Seq::empty()
    } else {
        match find_char_from(t, '{', i) {
            None => t.subrange(i, t.len() as int),
            Some(open) => match find_char_from(t, '}', open) {
                None => t.subrange(i, t.len() as int),
                Some(close) => if close + 1 <= i || close >= t.len() || open < i {
                    Seq::empty()
                } else {
                    let name = t.subrange(open + 1, close);
                    t.subrange(i, open) + match row_get_string(values, index, name) {
                        Some(v) => v + template_eval_from(t, close + 1, values, index),
                        None => t.subrange(open, close + 1) + template_eval_from(
                            t,
                            close + 1,
                            values,
                            index,
                        ),
                    }
                },
            },
        }
    }
}

/// The full evaluation of a template: the expansion, unless both braces
/// survive in it, which marks a missing value.
pub open spec fn template_eval(
    t: Seq<char>,
    values: Seq<RowVal>,
    index: Seq<(Seq<char>, usize)>,
) -> Option<Seq<char>> {
    let out = template_eval_from(t, 0, values, index);
    if out.contains('{') && out.contains('}') {
        None
    } else {
        Some(out)
    }
}

/// The meaning of a value expression on a row.
pub open spec fn value_expr_eval(
    ve: ValueExpressionModel,
    values: Seq<RowVal>,
    index: Seq<(Seq<char>, usize)>,
) -> Option<Seq<char>> {
    match ve {
        ValueExpressionModel::Constant { value } => Some(value),
        ValueExpressionModel::Column { column } => row_get_string(values, index, column),
        ValueExpressionModel::Template { template } => template_eval(template, values, index),
    }
}

/// The column names the placeholders of a template reference, from `i` on.
pub open spec fn template_refs_from(t: Seq<char>, i: int) -> Seq<Seq<char>>
    decreases t.len() - i,
{
    if i < 0 || i >= t.len() {
        Seq::empty()
    } else {
        match find_char_from(t, '{', i) {
            None => Seq::empty(),
            Some(open) => match find_char_from(t, '}', open) {
                None => Seq::empty(),
                Some(close) => if close + 1 <= i || close >= t.len() || open < i {
                    Seq::empty()
                } else {
                    let name = t.subrange(open + 1, close);
                    (if name.len() > 0 {
                        seq![name]
                    } else {
                        Seq::<Seq<char>>::empty()
                    }) + template_refs_from(t, close + 1)
                },
            },
        }
    }
}

/// The column names a value expression references.
pub open spec fn value_expr_refs(ve: ValueExpressionModel) -> Seq<Seq<char>> {
    match ve {
        ValueExpressionModel::Column { column } => if column.len() > 0 {
            seq![column]
        } else {
            Seq::empty()
        },
        ValueExpressionModel::Constant { .. } => Seq::empty(),
        ValueExpressionModel::Template { template } => template_refs_from(template, 0),
    }
}

/// The first position at or after `from` holding `c`.
fn find_char(s: &Vec<char>, c: char, from: usize) -> (r: Option<usize>)
    ensures
        match r {
            Some(j) => find_char_from(s@, c, from as int) == Some(j as int) && from <= j < s@.len()
                && s@[j as int] == c,
            None => find_char_from(s@, c, from as int) is None,
        },
{
    let n = s.len();
    let mut i: usize = from;
    if i > n {
        proof {
            assert(find_char_from(s@, c, from as int) is None);
        }
        return None;
    }
    while i < n
        invariant
            n == s@.len(),
            from <= i <= n,
            find_char_from(s@, c, from as int) == find_char_from(s@, c, i as int),
        decreases n - i,
    {
        if s[i] == c {
            return Some(i);
        }
        i = i + 1;
    }
    None
}

impl ValueExpression {
    /// Evaluates the expression on a row: a constant yields itself, a column
    /// yields the column's string form, and a template substitutes its
    /// placeholders; exactly [`value_expr_eval`].
    #[verifier::rlimit(100)]
    pub fn evaluate(&self, row: &IndexedRow<'_>) -> (r: Option<String>)
        ensures
            match r {
                Some(s) => value_expr_eval(
                    self.deep_view(),
                    row.values.deep_view(),
                    row.index.deep_view(),
                ) == Some(s@),
                None => value_expr_eval(
                    self.deep_view(),
                    row.values.deep_view(),
                    row.index.deep_view(),
                ) is None,
            },
    {
        match self {
            ValueExpression::Constant { value } => Some(value.clone()),
            ValueExpression::Column { column } => row.get_string(column),
            ValueExpression::Template { template } => {
                let t = chars_vec(template.as_str());
                let n = t.len();
                let mut out: Vec<char> = Vec::new();
                let mut i: usize = 0;
                while i < n
                    invariant
                        n == t@.len(),
                        t@ == template@,
                        i <= n,
                        out@ + template_eval_from(
                            t@,
                            i as int,
                            row.values.deep_view(),
                            row.index.deep_view(),
                        ) =~= template_eval_from(
                            t@,
                            0,
                            row.values.deep_view(),
                            row.index.deep_view(),
                        ),
                    decreases n - i,
                {
                    let open = match find_char(&t, '{', i) {
                        Some(o) => o,
                        None => {
                            let mut j: usize = i;
                            while j < n
                                invariant
                                    n == t@.len(),
                                    i <= j <= n,
                                    out@ =~= template_eval_from(
                                        t@,
                                        0,
                                        row.values.deep_view(),
                                        row.index.deep_view(),
                                    ).take(out@.len() as int),
                                    out@.len() + (n - j) == template_eval_from(
                                        t@,
                                        0,
                                        row.values.deep_view(),
                                        row.index.deep_view(),
                                    ).len(),
                                    out@ + t@.subrange(j as int, n as int) =~= template_eval_from(
                                        t@,
                                        0,
                                        row.values.deep_view(),
                                        row.index.deep_view(),
                                    ),
                                decreases n - j,
                            {
                                out.push(t[j]);
                                proof {
                                    assert(out@ + t@.subrange(j + 1, n as int)
                                        =~= template_eval_from(
                                        t@,
                                        0,
                                        row.values.deep_view(),
                                        row.index.deep_view(),
                                    ));
                                }
                                j = j + 1;
                            }
                            proof {
                                assert(out@ =~= template_eval_from(
                                    t@,
                                    0,
                                    row.values.deep_view(),
                                    row.index.deep_view(),
                                ));
                            }
                            i = n;
                            continue ;
                        },
                    };
                    let close = match find_char(&t, '}', open) {
                        Some(c) => c,
                        None => {
                            let mut j: usize = i;
                            while j < n
                                invariant
                                    n == t@.len(),
                                    i <= j <= n,
                                    out@ + t@.subrange(j as int, n as int) =~= template_eval_from(
                                        t@,
                                        0,
                                        row.values.deep_view(),
                                        row.index.deep_view(),
                                    ),
                                decreases n - j,
                            {
                                out.push(t[j]);
                                proof {
                                    assert(out@ + t@.subrange(j + 1, n as int)
                                        =~= template_eval_from(
                                        t@,
                                        0,
                                        row.values.deep_view(),
                                        row.index.deep_view(),
                                    ));
                                }
                                j = j + 1;
                            }
                            proof {
                                assert(out@ =~= template_eval_from(
                                    t@,
                                    0,
                                    row.values.deep_view(),
                                    row.index.deep_view(),
                                ));
                            }
                            i = n;
                            continue ;
                        },
                    };
                    // copy the literal text before the placeholder
                    let mut j: usize = i;
                    while j < open
                        invariant
                            n == t@.len(),
                            t@ == template@,
                            i <= j <= open,
                            open < n,
                            out@ + t@.subrange(j as int, open as int) + tail_eval_spec(
                                t@,
                                i as int,
                                open as int,
                                close as int,
                                row.values.deep_view(),
                                row.index.deep_view(),
                            ) =~= template_eval_from(
                                t@,
                                0,
                                row.values.deep_view(),
                                row.index.deep_view(),
                            ),
                        decreases open - j,
                    {
                        out.push(t[j]);
                        proof {
                            assert(out@ + t@.subrange(j + 1, open as int) + tail_eval_spec(
                                t@,
                                i as int,
                                open as int,
                                close as int,
                                row.values.deep_view(),
                                row.index.deep_view(),
                            ) =~= template_eval_from(
                                t@,
                                0,
                                row.values.deep_view(),
                                row.index.deep_view(),
                            ));
                        }
                        j = j + 1;
                    }
                    // resolve the placeholder
                    let mut name_chars: Vec<char> = Vec::new();
                    let mut k: usize = open + 1;
                    while k < close
                        invariant
                            n == t@.len(),
                            open + 1 <= k <= close,
                            close < n,
                            name_chars@ =~= t@.subrange(open + 1, k as int),
                        decreases close - k,
                    {
                        name_chars.push(t[k]);
                        proof {
                            assert(name_chars@ =~= t@.subrange(open + 1, k + 1));
                        }
                        k = k + 1;
                    }
                    let mut name = String::new();
                    push_chars(&mut name, &name_chars);
                    proof {
                        assert(name@ =~= t@.subrange(open + 1, close as int));
                    }
                    match row.get_string(&name) {
                        Some(v) => {
                            let vchars = chars_vec(v.as_str());
                            let mut w: usize = 0;
                            let vn = vchars.len();
                            while w < vn
                                invariant
                                    vn == vchars@.len(),
                                    w <= vn,
                                    out@ + vchars@.subrange(w as int, vn as int)
                                        + template_eval_from(
                                        t@,
                                        close + 1,
                                        row.values.deep_view(),
                                        row.index.deep_view(),
                                    ) =~= template_eval_from(
                                        t@,
                                        0,
                                        row.values.deep_view(),
                                        row.index.deep_view(),
                                    ),
                                    n == t@.len(),
                                    close < n,
                                decreases vn - w,
                            {
                                out.push(vchars[w]);
                                proof {
                                    assert(out@ + vchars@.subrange(w + 1, vn as int)
                                        + template_eval_from(
                                        t@,
                                        close + 1,
                                        row.values.deep_view(),
                                        row.index.deep_view(),
                                    ) =~= template_eval_from(
                                        t@,
                                        0,
                                        row.values.deep_view(),
                                        row.index.deep_view(),
                                    ));
                                }
                                w = w + 1;
                            }
                        },
                        None => {
                            let mut w: usize = open;
                            while w < close + 1
                                invariant
                                    n == t@.len(),
                                    open <= w <= close + 1,
                                    close < n,
                                    out@ + t@.subrange(w as int, close + 1) + template_eval_from(
                                        t@,
                                        close + 1,
                                        row.values.deep_view(),
                                        row.index.deep_view(),
                                    ) =~= template_eval_from(
                                        t@,
                                        0,
                                        row.values.deep_view(),
                                        row.index.deep_view(),
                                    ),
                                decreases close + 1 - w,
                            {
                                out.push(t[w]);
                                proof {
                                    assert(out@ + t@.subrange(w + 1, close + 1)
                                        + template_eval_from(
                                        t@,
                                        close + 1,
                                        row.values.deep_view(),
                                        row.index.deep_view(),
                                    ) =~= template_eval_from(
                                        t@,
                                        0,
                                        row.values.deep_view(),
                                        row.index.deep_view(),
                                    ));
                                }
                                w = w + 1;
                            }
                        },
                    }
                    i = close + 1;
                }
                proof {
                    if i < n {
                    } else {
                        assert(template_eval_from(
                            t@,
                            i as int,
                            row.values.deep_view(),
                            row.index.deep_view(),
                        ) =~= Seq::<char>::empty());
                        assert(out@ =~= template_eval_from(
                            t@,
                            0,
                            row.values.deep_view(),
                            row.index.deep_view(),
                        ));
                    }
                }
                let has_open = char_vec_contains(&out, '{');
                let has_close = char_vec_contains(&out, '}');
                if has_open && has_close {
                    None
                } else {
                    let mut s = String::new();
                    push_chars(&mut s, &out);
                    Some(s)
                }
            },
        }
    }

    /// Appends the column names this expression references, in reading
    /// order.
    pub fn referenced_columns(&self, out: &mut Vec<String>)
        ensures
            final(out).deep_view() == old(out).deep_view() + value_expr_refs(self.deep_view()),
    {
        match self {
            ValueExpression::Column { column } => {
                if !column.as_str().is_empty() {
                    out.push(column.clone());
                    proof {
                        assert(out.deep_view() =~= old(out).deep_view() + value_expr_refs(
                            self.deep_view(),
                        ));
                    }
                } else {
                    proof {
                        assert(out.deep_view() =~= old(out).deep_view() + value_expr_refs(
                            self.deep_view(),
                        ));
                    }
                }
            },
            ValueExpression::Constant { .. } => {
                proof {
                    assert(out.deep_view() =~= old(out).deep_view() + value_expr_refs(
                        self.deep_view(),
                    ));
                }
            },
            ValueExpression::Template { template } => {
                let t = chars_vec(template.as_str());
                let n = t.len();
                let mut i: usize = 0;
                while i < n
                    invariant
                        n == t@.len(),
                        t@ == template@,
                        i <= n,
                        out.deep_view() + template_refs_from(t@, i as int) =~= old(
                            out,
                        ).deep_view() + template_refs_from(t@, 0),
                    decreases n - i,
                {
                    let open = match find_char(&t, '{', i) {
                        Some(o) => o,
                        None => {
                            i = n;
                            continue ;
                        },
                    };
                    let close = match find_char(&t, '}', open) {
                        Some(c) => c,
                        None => {
                            i = n;
                            continue ;
                        },
                    };
                    let mut name_chars: Vec<char> = Vec::new();
                    let mut k: usize = open + 1;
                    while k < close
                        invariant
                            n == t@.len(),
                            open + 1 <= k <= close,
                            close < n,
                            name_chars@ =~= t@.subrange(open + 1, k as int),
                        decreases close - k,
                    {
                        name_chars.push(t[k]);
                        proof {
                            assert(name_chars@ =~= t@.subrange(open + 1, k + 1));
                        }
                        k = k + 1;
                    }
                    if name_chars.len() > 0 {
                        let mut name = String::new();
                        push_chars(&mut name, &name_chars);
                        proof {
                            assert(name@ =~= t@.subrange(open + 1, close as int));
                        }
                        out.push(name);
                        proof {
                            assert(out.deep_view() + template_refs_from(t@, close + 1) =~= old(
                                out,
                            ).deep_view() + template_refs_from(t@, 0));
                        }
                    } else {
                        proof {
                            assert(out.deep_view() + template_refs_from(t@, close + 1) =~= old(
                                out,
                            ).deep_view() + template_refs_from(t@, 0));
                        }
                    }
                    i = close + 1;
                }
                proof {
                    if i >= n {
                        assert(template_refs_from(t@, i as int) =~= Seq::<Seq<char>>::empty());
                    }
                    assert(out.deep_view() =~= old(out).deep_view() + template_refs_from(t@, 0));
                }
            },
        }
    }
}

/// The yet-unprocessed part of a template evaluation, for the loop
/// invariants of the evaluator: placeholder resolution and the rest.
pub open spec fn tail_eval_spec(
    t: Seq<char>,
    i: int,
    open: int,
    close: int,
    values: Seq<RowVal>,
    index: Seq<(Seq<char>, usize)>,
) -> Seq<char> {
    let name = t.subrange(open + 1, close);
    match row_get_string(values, index, name) {
        Some(v) => v + template_eval_from(t, close + 1, values, index),
        None => t.subrange(open, close + 1) + template_eval_from(t, close + 1, values, index),
    }
}

/// Whether the characters hold `c`.
fn char_vec_contains(s: &Vec<char>, c: char) -> (r: bool)
    ensures
        r == s@.contains(c),
{
    let n = s.len();
    let mut i: usize = 0;
    while i < n
        invariant
            n == s@.len(),
            i <= n,
            forall|k: int| 0 <= k < i ==> s@[k] != c,
        decreases n - i,
    {
        if s[i] == c {
            return true;
        }
        i = i + 1;
    }
    false
}

/// Format specification for parsing timestamps.
#[derive(Debug, Clone, PartialEq, Eq)]
pub enum TimestampFormat {
    /// Try a list of common formats, then a full timestamp text.
    Auto,
    /// A chrono format string.
    FormatString { format: String },
    /// Seconds since the epoch, as decimal text.
    UnixSeconds,
    /// Milliseconds since the epoch, as decimal text.
    UnixMillis,
}

/// Ghost model of a [`TimestampFormat`].
pub enum TimestampFormatModel {
    Auto,
    FormatString { format: Seq<char> },
    UnixSeconds,
    UnixMillis,
}

impl DeepView for TimestampFormat {
    type V = TimestampFormatModel;

    open spec fn deep_view(&self) -> TimestampFormatModel {
        match self {
            TimestampFormat::Auto => TimestampFormatModel::Auto,
            TimestampFormat::FormatString { format } => TimestampFormatModel::FormatString {
                format: format@,
            },
            TimestampFormat::UnixSeconds => TimestampFormatModel::UnixSeconds,
            TimestampFormat::UnixMillis => TimestampFormatModel::UnixMillis,
        }
    }
}

/// The common formats the automatic mode tries, in order, preferring the
/// day-first reading where a date is ambiguous.
pub open spec fn auto_formats() -> Seq<Seq<char>> {
    seq![
        "%Y-%m-%d %H:%M:%S%.f"@,
        "%Y-%m-%d %H:%M:%S"@,
        "%Y-%m-%dT%H:%M:%S%.f"@,
        "%Y-%m-%dT%H:%M:%S"@,
        "%Y-%m-%d"@,
        "%d/%m/%Y %H:%M:%S"@,
        "%d/%m/%Y"@,
        "%m/%d/%Y %H:%M:%S"@,
        "%m/%d/%Y"@,
    ]
}

/// The automatic parse from format `k` on: the first format that parses the
/// value as a timestamp or as a date wins; a full timestamp text is the
/// last resort.
pub open spec fn auto_parse_from(value: Seq<char>, k: int) -> Option<i64>
    decreases auto_formats().len() - k,
{
    if k < 0 || k >= auto_formats().len() {
        chrono_rfc_parse(value)
    } else {
        match chrono_datetime_parse(value, auto_formats()[k]) {
            Some(ms) => Some(ms),
            None => match chrono_date_parse(value, auto_formats()[k]) {
                Some(ms) => Some(ms),
                None => auto_parse_from(value, k + 1),
            },
        }
    }
}

/// The meaning of a timestamp parse, in milliseconds since the epoch.
pub open spec fn ts_parse_spec(value: Seq<char>, fmt: TimestampFormatModel) -> Option<i64> {
    match fmt {
        TimestampFormatModel::Auto => auto_parse_from(value, 0),
        TimestampFormatModel::FormatString { format } => chrono_datetime_parse(value, format),
        TimestampFormatModel::UnixSeconds => match crate::text::parse_i64_spec(value) {
            Some(s) => if s > 9_223_372_036_854_775i64 || s < -9_223_372_036_854_775i64 {
                None
            } else {
                Some((s * 1000) as i64)
            },
            None => None,
        },
        TimestampFormatModel::UnixMillis => crate::text::parse_i64_spec(value),
    }
}

/// Parses a timestamp text under the format, in milliseconds since the
/// epoch; exactly [`ts_parse_spec`].
pub fn parse_timestamp(value: &String, format: &TimestampFormat) -> (r: Option<i64>)
    ensures
        r == ts_parse_spec(value@, format.deep_view()),
{
    match format {
        TimestampFormat::Auto => {
            let mut formats: Vec<String> = Vec::new();
            formats.push("%Y-%m-%d %H:%M:%S%.f".to_owned());
            formats.push("%Y-%m-%d %H:%M:%S".to_owned());
            formats.push("%Y-%m-%dT%H:%M:%S%.f".to_owned());
            formats.push("%Y-%m-%dT%H:%M:%S".to_owned());
            formats.push("%Y-%m-%d".to_owned());
            formats.push("%d/%m/%Y %H:%M:%S".to_owned());
            formats.push("%d/%m/%Y".to_owned());
            formats.push("%m/%d/%Y %H:%M:%S".to_owned());
            formats.push("%m/%d/%Y".to_owned());
            proof {
                assert(formats.deep_view() =~= auto_formats());
            }
            let n = formats.len();
            let mut k: usize = 0;
            while k < n
                invariant
                    n == formats@.len(),
                    formats.deep_view() == auto_formats(),
                    k <= n,
                    auto_parse_from(value@, 0) == auto_parse_from(value@, k as int),
                decreases n - k,
            {
                proof {
                    assert(formats.deep_view()[k as int] == formats@[k as int]@);
                }
                match parse_naive_datetime_millis(value.as_str(), formats[k].as_str()) {
                    Some(ms) => {
                        return Some(ms);
                    },
                    None => {},
                }
                match parse_naive_date_millis(value.as_str(), formats[k].as_str()) {
                    Some(ms) => {
                        return Some(ms);
                    },
                    None => {},
                }
                k = k + 1;
            }
            proof {
                assert(auto_parse_from(value@, n as int) == chrono_rfc_parse(value@));
            }
            parse_rfc_datetime_millis(value.as_str())
        },
        TimestampFormat::FormatString { format } => parse_naive_datetime_millis(
            value.as_str(),
            format.as_str(),
        ),
        TimestampFormat::UnixSeconds => {
            let chars = chars_vec(value.as_str());
            match crate::text::parse_i64_chars(&chars) {
                Some(s) => {
                    if s > 9_223_372_036_854_775i64 || s < -9_223_372_036_854_775i64 {
                        None
                    } else {
                        Some(s * 1000)
                    }
                },
                None => None,
            }
        },
        TimestampFormat::UnixMillis => {
            let chars = chars_vec(value.as_str());
            crate::text::parse_i64_chars(&chars)
        },
    }
}

/// Source specification for extracting timestamps: one column with a
/// format, or separate date and time columns.
#[derive(Debug)]
pub enum TimestampSource {
    Column { column: String, format: TimestampFormat },
    Components { date_column: Option<String>, time_column: Option<String> },
}

/// Ghost model of a [`TimestampSource`].
pub enum TimestampSourceModel {
    Column { column: Seq<char>, format: TimestampFormatModel },
    Components { date_column: Option<Seq<char>>, time_column: Option<Seq<char>> },
}

impl DeepView for TimestampSource {
    type V = TimestampSourceModel;

    open spec fn deep_view(&self) -> TimestampSourceModel {
        match self {
            TimestampSource::Column { column, format } => TimestampSourceModel::Column {
                column: column@,
                format: format.deep_view(),
            },
            TimestampSource::Components { date_column, time_column } => TimestampSourceModel::Components {
                date_column: match date_column {
                    Some(c) => Some(c@),
                    None => None,
                },
                time_column: match time_column {
                    Some(c) => Some(c@),
                    None => None,
                },
            },
        }
    }
}

/// The date part of a combined text: everything before the first `T` or, if
/// none, the first space; the whole text otherwise.
pub open spec fn date_part(s: Seq<char>) -> Seq<char> {
    match find_char_from(s, 'T', 0) {
        Some(j) => s.subrange(0, j),
        None => match find_char_from(s, ' ', 0) {
            Some(j) => s.subrange(0, j),
            None => s,
        },
    }
}

/// The last position holding `c`, if any.
pub open spec fn rfind_char(s: Seq<char>, c: char) -> Option<int>
    decreases s.len(),
{
    if s.len() == 0 {
        None
    } else if s.last() == c {
        Some(s.len() - 1)
    } else {
        rfind_char(s.drop_last(), c)
    }
}

/// The time part of a combined text: everything after the last `T` or, if
/// none, the last space; the whole text otherwise.
pub open spec fn time_part(s: Seq<char>) -> Seq<char> {
    match rfind_char(s, 'T') {
        Some(j) => s.subrange(j + 1, s.len() as int),
        None => match rfind_char(s, ' ') {
            Some(j) => s.subrange(j + 1, s.len() as int),
            None => s,
        },
    }
}

/// The parse of separate date and time strings: their plain combination,
/// then the combination of the date part of the first and the time part of
/// the second, then each alone.
pub open spec fn components_parse_spec(d: Option<Seq<char>>, t: Option<Seq<char>>) -> Option<i64> {
    match (d, t) {
        (Some(dv), Some(tv)) => match auto_parse_from(dv + seq![' '] + tv, 0) {
            Some(ms) => Some(ms),
            None => match auto_parse_from(date_part(dv) + seq![' '] + time_part(tv), 0) {
                Some(ms) => Some(ms),
                None => match auto_parse_from(dv, 0) {
                    Some(ms) => Some(ms),
                    None => auto_parse_from(tv, 0),
                },
            },
        },
        (Some(dv), None) => auto_parse_from(dv, 0),
        (None, Some(tv)) => auto_parse_from(tv, 0),
        (None, None) => None,
    }
}

/// The meaning of a timestamp source on a row.
pub open spec fn ts_source_spec(
    src: TimestampSourceModel,
    values: Seq<RowVal>,
    index: Seq<(Seq<char>, usize)>,
) -> Option<i64> {
    match src {
        TimestampSourceModel::Column { column, format } => match row_get_string(
            values,
            index,
            column,
        ) {
            Some(v) => ts_parse_spec(v, format),
            None => None,
        },
        TimestampSourceModel::Components { date_column, time_column } => {
            let d = match date_column {
                Some(c) => row_get_string(values, index, c),
                None => None,
            };
            let t = match time_column {
                Some(c) => row_get_string(values, index, c),
                None => None,
            };
            components_parse_spec(d, t)
        },
    }
}

/// The last position holding `c` at or after 0.
fn rfind_char_exec(s: &Vec<char>, c: char) -> (r: Option<usize>)
    ensures
        match r {
            Some(j) => rfind_char(s@, c) == Some(j as int) && j < s@.len(),
            None => rfind_char(s@, c) is None,
        },
{
    let mut i: usize = s.len();
    proof {
        assert(s@.take(s@.len() as int) =~= s@);
    }
    while i > 0
        invariant
            i <= s@.len(),
            rfind_char(s@, c) == rfind_char(s@.take(i as int), c),
        decreases i,
    {
        proof {
            assert(s@.take(i as int).last() == s@[i - 1]);
            assert(s@.take(i as int).drop_last() =~= s@.take(i - 1));
        }
        if s[i - 1] == c {
            return Some(i - 1);
        }
        i = i - 1;
    }
    proof {
        assert(s@.take(0) =~= Seq::<char>::empty());
    }
    None
}

/// Joins two texts with a single space.
fn join_with_space(a: &String, b: &String) -> (r: String)
    ensures
        r@ == a@ + seq![' '] + b@,
{
    let mut s = a.clone();
    let mut space_chars: Vec<char> = Vec::new();
    space_chars.push(' ');
    push_chars(&mut s, &space_chars);
    s.append(b.as_str());
    proof {
        assert(s@ =~= a@ + seq![' '] + b@);
    }
    s
}

/// The date part of a combined text, per [`date_part`].
fn date_part_exec(s: &String) -> (r: String)
    ensures
        r@ == date_part(s@),
{
    let chars = chars_vec(s.as_str());
    let cut: Option<usize> = match find_char(&chars, 'T', 0) {
        Some(j) => Some(j),
        None => find_char(&chars, ' ', 0),
    };
    match cut {
        Some(j) => {
            let mut pre: Vec<char> = Vec::new();
            let mut k: usize = 0;
            while k < j
                invariant
                    j < chars@.len(),
                    k <= j,
                    pre@ =~= chars@.subrange(0, k as int),
                decreases j - k,
            {
                pre.push(chars[k]);
                proof {
                    assert(pre@ =~= chars@.subrange(0, k + 1));
                }
                k = k + 1;
            }
            let mut out = String::new();
            push_chars(&mut out, &pre);
            proof {
                assert(out@ =~= date_part(s@));
            }
            out
        },
        None => {
            let r = s.clone();
            proof {
                assert(r@ =~= date_part(s@));
            }
            r
        },
    }
}

/// The time part of a combined text, per [`time_part`].
fn time_part_exec(s: &String) -> (r: String)
    ensures
        r@ == time_part(s@),
{
    let chars = chars_vec(s.as_str());
    let n = chars.len();
    let cut: Option<usize> = match rfind_char_exec(&chars, 'T') {
        Some(j) => Some(j),
        None => rfind_char_exec(&chars, ' '),
    };
    match cut {
        Some(j) => {
            let mut post: Vec<char> = Vec::new();
            let mut k: usize = j + 1;
            while k < n
                invariant
                    n == chars@.len(),
                    j < n,
                    j + 1 <= k <= n,
                    post@ =~= chars@.subrange(j + 1, k as int),
                decreases n - k,
            {
                post.push(chars[k]);
                proof {
                    assert(post@ =~= chars@.subrange(j + 1, k + 1));
                }
                k = k + 1;
            }
            let mut out = String::new();
            push_chars(&mut out, &post);
            proof {
                assert(out@ =~= time_part(s@));
            }
            out
        },
        None => {
            let r = s.clone();
            proof {
                assert(r@ =~= time_part(s@));
            }
            r
        },
    }
}

impl TimestampSource {
    /// Parses the timestamp this source yields on a row, in milliseconds
    /// since the epoch; exactly [`ts_source_spec`].
    pub fn parse(&self, row: &IndexedRow<'_>) -> (r: Option<i64>)
        ensures
            r == ts_source_spec(self.deep_view(), row.values.deep_view(), row.index.deep_view()),
    {
        match self {
            TimestampSource::Column { column, format } => match row.get_string(column) {
                Some(v) => parse_timestamp(&v, format),
                None => None,
            },
            TimestampSource::Components { date_column, time_column } => {
                let auto = TimestampFormat::Auto;
                let d: Option<String> = match date_column {
                    Some(c) => row.get_string(c),
                    None => None,
                };
                let t: Option<String> = match time_column {
                    Some(c) => row.get_string(c),
                    None => None,
                };
                match (d, t) {
                    (Some(dv), Some(tv)) => {
                        let joined = join_with_space(&dv, &tv);
                        match parse_timestamp(&joined, &auto) {
                            Some(ms) => Some(ms),
                            None => {
                                let dp = date_part_exec(&dv);
                                let tp = time_part_exec(&tv);
                                let joined2 = join_with_space(&dp, &tp);
                                match parse_timestamp(&joined2, &auto) {
                                    Some(ms) => Some(ms),
                                    None => match parse_timestamp(&dv, &auto) {
                                        Some(ms) => Some(ms),
                                        None => parse_timestamp(&tv, &auto),
                                    },
                                }
                            },
                        }
                    },
                    (Some(dv), None) => parse_timestamp(&dv, &auto),
                    (None, Some(tv)) => parse_timestamp(&tv, &auto),
                    (None, None) => None,
                }
            },
        }
    }

    /// Appends the column names this source reads.
    pub fn referenced_columns(&self, out: &mut Vec<String>)
        ensures
            final(out).deep_view() == old(out).deep_view() + ts_source_refs(self.deep_view()),
    {
        match self {
            TimestampSource::Column { column, format: _ } => {
                if !column.as_str().is_empty() {
                    out.push(column.clone());
                    proof {
                        assert(out.deep_view() =~= old(out).deep_view() + ts_source_refs(
                            self.deep_view(),
                        ));
                    }
                } else {
                    proof {
                        assert(out.deep_view() =~= old(out).deep_view() + ts_source_refs(
                            self.deep_view(),
                        ));
                    }
                }
            },
            TimestampSource::Components { date_column, time_column } => {
                match date_column {
                    Some(c) => {
                        out.push(c.clone());
                    },
                    None => {},
                }
                match time_column {
                    Some(c) => {
                        out.push(c.clone());
                    },
                    None => {},
                }
                proof {
                    assert(out.deep_view() =~= old(out).deep_view() + ts_source_refs(
                        self.deep_view(),
                    ));
                }
            },
        }
    }
}

/// The column names a timestamp source reads.
pub open spec fn ts_source_refs(src: TimestampSourceModel) -> Seq<Seq<char>> {
    match src {
        TimestampSourceModel::Column { column, .. } => if column.len() > 0 {
            seq![column]
        } else {
            Seq::empty()
        },
        TimestampSourceModel::Components { date_column, time_column } => (match date_column {
            Some(c) => seq![c],
            None => Seq::<Seq<char>>::empty(),
        }) + (match time_column {
            Some(c) => seq![c],
            None => Seq::<Seq<char>>::empty(),
        }),
    }
}

/// Condition for matching rows in change tables.
#[derive(Debug)]
pub enum ChangeTableCondition {
    /// Some sub-condition holds.
    Or { conditions: Vec<ChangeTableCondition> },
    /// Every sub-condition holds.
    And { conditions: Vec<ChangeTableCondition> },
    /// The column's string form equals the value.
    ColumnEquals { column: String, value: String },
    /// The column's string form matches the regular expression.
    ColumnMatches { column: String, regex: String },
    /// The column holds a non-null, non-empty value.
    ColumnNotEmpty { column: String },
}

/// Ghost model of a [`ChangeTableCondition`].
pub enum CondModel {
    Or { conditions: Seq<CondModel> },
    And { conditions: Seq<CondModel> },
    ColumnEquals { column: Seq<char>, value: Seq<char> },
    ColumnMatches { column: Seq<char>, regex: Seq<char> },
    ColumnNotEmpty { column: Seq<char> },
}

/// The models of the first `i` conditions of a list.
pub open spec fn cond_model_list(cs: Seq<ChangeTableCondition>, i: nat) -> Seq<CondModel>
    decreases cs, i,
{
    if i == 0 || i > cs.len() {
        Seq::empty()
    } else {
        cond_model_list(cs, (i - 1) as nat).push(cond_model(&cs[i - 1]))
    }
}

/// The model of a condition.
pub open spec fn cond_model(c: &ChangeTableCondition) -> CondModel
    decreases c, 1nat,
{
    match c {
        ChangeTableCondition::Or { conditions } => CondModel::Or {
            conditions: cond_model_list(conditions@, conditions@.len()),
        },
        ChangeTableCondition::And { conditions } => CondModel::And {
            conditions: cond_model_list(conditions@, conditions@.len()),
        },
        ChangeTableCondition::ColumnEquals { column, value } => CondModel::ColumnEquals {
            column: column@,
            value: value@,
        },
        ChangeTableCondition::ColumnMatches { column, regex } => CondModel::ColumnMatches {
            column: column@,
            regex: regex@,
        },
        ChangeTableCondition::ColumnNotEmpty { column } => CondModel::ColumnNotEmpty {
            column: column@,
        },
    }
}

impl DeepView for ChangeTableCondition {
    type V = CondModel;

    open spec fn deep_view(&self) -> CondModel {
        cond_model(self)
    }
}

/// Whether every regular expression of the condition is valid.
pub open spec fn cond_regexes_valid(c: CondModel) -> bool
    decreases c,
{
    match c {
        CondModel::Or { conditions } => forall|k: int|
            0 <= k < conditions.len() ==> cond_regexes_valid(#[trigger] conditions[k]),
        CondModel::And { conditions } => forall|k: int|
            0 <= k < conditions.len() ==> cond_regexes_valid(#[trigger] conditions[k]),
        CondModel::ColumnMatches { regex, .. } => crate::outside::regex_valid(regex),
        _ => true,
    }
}

/// The meaning of a condition on a row. A column without a string form
/// fails the equality and match tests; `ColumnNotEmpty` asks for a present,
/// non-null cell whose string form, if it has one, is non-empty.
pub open spec fn cond_holds(
    c: CondModel,
    values: Seq<RowVal>,
    index: Seq<(Seq<char>, usize)>,
) -> bool
    decreases c,
{
    match c {
        CondModel::Or { conditions } => exists|k: int|
            0 <= k < conditions.len() && cond_holds(#[trigger] conditions[k], values, index),
        CondModel::And { conditions } => forall|k: int|
            0 <= k < conditions.len() ==> cond_holds(#[trigger] conditions[k], values, index),
        CondModel::ColumnEquals { column, value } => row_get_string(values, index, column) == Some(
            value,
        ),
        CondModel::ColumnMatches { column, regex } => match row_get_string(values, index, column) {
            Some(s) => crate::outside::regex_match(regex, s),
            None => false,
        },
        CondModel::ColumnNotEmpty { column } => match row_get(values, index, column) {
            Some(v) => !(v is Null) && match row_string(v) {
                Some(s) => s.len() > 0,
                None => true,
            },
            None => false,
        },
    }
}

/// A pre-compiled condition: the same shape with every regular expression
/// checked.
#[derive(Debug)]
pub enum PreparedCondition {
    Or(Vec<PreparedCondition>),
    And(Vec<PreparedCondition>),
    ColumnEquals { column: String, value: String },
    ColumnMatches { column: String, pattern: String },
    ColumnNotEmpty { column: String },
}

/// The conditions the first `i` prepared conditions came from.
pub open spec fn prep_model_list(cs: Seq<PreparedCondition>, i: nat) -> Seq<CondModel>
    decreases cs, i,
{
    if i == 0 || i > cs.len() {
        Seq::empty()
    } else {
        prep_model_list(cs, (i - 1) as nat).push(prep_model(&cs[i - 1]))
    }
}

/// The condition a prepared condition came from.
pub open spec fn prep_model(p: &PreparedCondition) -> CondModel
    decreases p, 1nat,
{
    match p {
        PreparedCondition::Or(conditions) => CondModel::Or {
            conditions: prep_model_list(conditions@, conditions@.len()),
        },
        PreparedCondition::And(conditions) => CondModel::And {
            conditions: prep_model_list(conditions@, conditions@.len()),
        },
        PreparedCondition::ColumnEquals { column, value } => CondModel::ColumnEquals {
            column: column@,
            value: value@,
        },
        PreparedCondition::ColumnMatches { column, pattern } => CondModel::ColumnMatches {
            column: column@,
            regex: pattern@,
        },
        PreparedCondition::ColumnNotEmpty { column } => CondModel::ColumnNotEmpty {
            column: column@,
        },
    }
}

/// The model list of the first `i` conditions indexes pointwise.
proof fn lemma_cond_model_list(cs: Seq<ChangeTableCondition>, i: nat)
    requires
        i <= cs.len(),
    ensures
        cond_model_list(cs, i).len() == i,
        forall|k: int| 0 <= k < i ==> #[trigger] cond_model_list(cs, i)[k] == cond_model(&cs[k]),
    decreases i,
{
    if i > 0 {
        lemma_cond_model_list(cs, (i - 1) as nat);
    }
}

/// The model list of the first `i` prepared conditions indexes pointwise.
proof fn lemma_prep_model_list(cs: Seq<PreparedCondition>, i: nat)
    requires
        i <= cs.len(),
    ensures
        prep_model_list(cs, i).len() == i,
        forall|k: int| 0 <= k < i ==> #[trigger] prep_model_list(cs, i)[k] == prep_model(&cs[k]),
    decreases i,
{
    if i > 0 {
        lemma_prep_model_list(cs, (i - 1) as nat);
    }
}

impl ChangeTableCondition {
    /// Pre-compiles the condition, checking every regular expression; on
    /// success the prepared condition means exactly what this one does.
    pub fn prepare(&self) -> (r: Result<PreparedCondition, regex::Error>)
        ensures
            match r {
                Ok(p) => prep_model(&p) == cond_model(self) && cond_regexes_valid(cond_model(self)),
                Err(_) => !cond_regexes_valid(cond_model(self)),
            },
        decreases self,
    {
        match self {
            ChangeTableCondition::Or { conditions } => {
                let mut out: Vec<PreparedCondition> = Vec::new();
                let n = conditions.len();
                let mut i: usize = 0;
                while i < n
                    invariant
                        n == conditions@.len(),
                        i <= n,
                        out@.len() == i,
                        forall|k: int|
                            0 <= k < i ==> prep_model(&(#[trigger] out@[k])) == cond_model(
                                &conditions@[k],
                            ) && cond_regexes_valid(cond_model(&conditions@[k])),
                    decreases n - i,
                {
                    match conditions[i].prepare() {
                        Ok(p) => {
                            out.push(p);
                        },
                        Err(e) => {
                            proof {
                                lemma_cond_model_list(conditions@, conditions@.len() as nat);
                                assert(!cond_regexes_valid(
                                    cond_model(self).arrow_Or_conditions()[i as int],
                                ));
                            }
                            return Err(e);
                        },
                    }
                    i = i + 1;
                }
                proof {
                    lemma_cond_model_list(conditions@, conditions@.len() as nat);
                    lemma_prep_model_list(out@, out@.len() as nat);
                    assert(prep_model_list(out@, out@.len() as nat) =~= cond_model_list(
                        conditions@,
                        conditions@.len() as nat,
                    ));
                    assert forall|k: int|
                        0 <= k < cond_model(self).arrow_Or_conditions().len() implies
                        cond_regexes_valid(
                        #[trigger] cond_model(self).arrow_Or_conditions()[k],
                    ) by {
                    }
                }
                Ok(PreparedCondition::Or(out))
            },
            ChangeTableCondition::And { conditions } => {
                let mut out: Vec<PreparedCondition> = Vec::new();
                let n = conditions.len();
                let mut i: usize = 0;
                while i < n
                    invariant
                        n == conditions@.len(),
                        i <= n,
                        out@.len() == i,
                        forall|k: int|
                            0 <= k < i ==> prep_model(&(#[trigger] out@[k])) == cond_model(
                                &conditions@[k],
                            ) && cond_regexes_valid(cond_model(&conditions@[k])),
                    decreases n - i,
                {
                    match conditions[i].prepare() {
                        Ok(p) => {
                            out.push(p);
                        },
                        Err(e) => {
                            proof {
                                lemma_cond_model_list(conditions@, conditions@.len() as nat);
                                assert(!cond_regexes_valid(
                                    cond_model(self).arrow_And_conditions()[i as int],
                                ));
                            }
                            return Err(e);
                        },
                    }
                    i = i + 1;
                }
                proof {
                    lemma_cond_model_list(conditions@, conditions@.len() as nat);
                    lemma_prep_model_list(out@, out@.len() as nat);
                    assert(prep_model_list(out@, out@.len() as nat) =~= cond_model_list(
                        conditions@,
                        conditions@.len() as nat,
                    ));
                    assert forall|k: int|
                        0 <= k < cond_model(self).arrow_And_conditions().len() implies
                        cond_regexes_valid(
                        #[trigger] cond_model(self).arrow_And_conditions()[k],
                    ) by {
                    }
                }
                Ok(PreparedCondition::And(out))
            },
            ChangeTableCondition::ColumnEquals { column, value } => Ok(
                PreparedCondition::ColumnEquals { column: column.clone(), value: value.clone() },
            ),
            ChangeTableCondition::ColumnMatches { column, regex } => {
                match crate::outside::regex_compile(regex.as_str()) {
                    Ok(_) => Ok(
                        PreparedCondition::ColumnMatches {
                            column: column.clone(),
                            pattern: regex.clone(),
                        },
                    ),
                    Err(e) => Err(e),
                }
            },
            ChangeTableCondition::ColumnNotEmpty { column } => Ok(
                PreparedCondition::ColumnNotEmpty { column: column.clone() },
            ),
        }
    }

    /// Appends the column names the condition reads.
    pub fn referenced_columns(&self, out: &mut Vec<String>)
        ensures
            final(out).deep_view() == old(out).deep_view() + cond_refs(cond_model(self)),
        decreases self,
    {
        match self {
            ChangeTableCondition::Or { conditions } => {
                let n = conditions.len();
                let mut i: usize = 0;
                proof {
                    lemma_cond_model_list(conditions@, conditions@.len() as nat);
                    assert(out.deep_view() =~= old(out).deep_view() + cond_refs_list(
                        cond_model(self).arrow_Or_conditions(),
                        0,
                    ));
                }
                while i < n
                    invariant
                        n == conditions@.len(),
                        i <= n,
                        out.deep_view() == old(out).deep_view() + cond_refs_list(
                            cond_model(self).arrow_Or_conditions(),
                            i as nat,
                        ),
                        cond_model(self) matches CondModel::Or { conditions: cs } && cs.len()
                            == n && forall|k: int|
                            0 <= k < n ==> #[trigger] cond_model(self).arrow_Or_conditions()[k]
                                == cond_model(&conditions@[k]),
                    decreases n - i,
                {
                    proof {
                        assert(cond_model(self).arrow_Or_conditions()[i as int] == cond_model(
                            &conditions@[i as int],
                        ));
                    }
                    conditions[i].referenced_columns(out);
                    proof {
                        assert(out.deep_view() =~= old(out).deep_view() + cond_refs_list(
                            cond_model(self).arrow_Or_conditions(),
                            (i + 1) as nat,
                        ));
                    }
                    i = i + 1;
                }
            },
            ChangeTableCondition::And { conditions } => {
                let n = conditions.len();
                let mut i: usize = 0;
                proof {
                    lemma_cond_model_list(conditions@, conditions@.len() as nat);
                    assert(out.deep_view() =~= old(out).deep_view() + cond_refs_list(
                        cond_model(self).arrow_And_conditions(),
                        0,
                    ));
                }
                while i < n
                    invariant
                        n == conditions@.len(),
                        i <= n,
                        out.deep_view() == old(out).deep_view() + cond_refs_list(
                            cond_model(self).arrow_And_conditions(),
                            i as nat,
                        ),
                        cond_model(self) matches CondModel::And { conditions: cs } && cs.len()
                            == n && forall|k: int|
                            0 <= k < n ==> #[trigger] cond_model(self).arrow_And_conditions()[k]
                                == cond_model(&conditions@[k]),
                    decreases n - i,
                {
                    proof {
                        assert(cond_model(self).arrow_And_conditions()[i as int] == cond_model(
                            &conditions@[i as int],
                        ));
                    }
                    conditions[i].referenced_columns(out);
                    proof {
                        assert(out.deep_view() =~= old(out).deep_view() + cond_refs_list(
                            cond_model(self).arrow_And_conditions(),
                            (i + 1) as nat,
                        ));
                    }
                    i = i + 1;
                }
            },
            ChangeTableCondition::ColumnEquals { column, .. } => {
                if !column.as_str().is_empty() {
                    out.push(column.clone());
                }
                proof {
                    assert(out.deep_view() =~= old(out).deep_view() + cond_refs(cond_model(self)));
                }
            },
            ChangeTableCondition::ColumnMatches { column, .. } => {
                if !column.as_str().is_empty() {
                    out.push(column.clone());
                }
                proof {
                    assert(out.deep_view() =~= old(out).deep_view() + cond_refs(cond_model(self)));
                }
            },
            ChangeTableCondition::ColumnNotEmpty { column } => {
                if !column.as_str().is_empty() {
                    out.push(column.clone());
                }
                proof {
                    assert(out.deep_view() =~= old(out).deep_view() + cond_refs(cond_model(self)));
                }
            },
        }
    }
}

/// The column names a condition reads, in reading order.
pub open spec fn cond_refs(c: CondModel) -> Seq<Seq<char>>
    decreases c, 0nat,
{
    match c {
        CondModel::Or { conditions } => cond_refs_list(conditions, conditions.len()),
        CondModel::And { conditions } => cond_refs_list(conditions, conditions.len()),
        CondModel::ColumnEquals { column, .. } => if column.len() > 0 {
            seq![column]
        } else {
            Seq::empty()
        },
        CondModel::ColumnMatches { column, .. } => if column.len() > 0 {
            seq![column]
        } else {
            Seq::empty()
        },
        CondModel::ColumnNotEmpty { column } => if column.len() > 0 {
            seq![column]
        } else {
            Seq::empty()
        },
    }
}

/// The concatenated column references of the first `i` conditions.
pub open spec fn cond_refs_list(cs: Seq<CondModel>, i: nat) -> Seq<Seq<char>>
    decreases cs, i,
{
    if i == 0 || i > cs.len() {
        Seq::empty()
    } else {
        cond_refs_list(cs, (i - 1) as nat) + cond_refs(cs[i - 1])
    }
}

impl PreparedCondition {
    /// Evaluates the condition on a row; exactly [`cond_holds`] of the
    /// condition it was prepared from.
    pub fn evaluate(&self, row: &IndexedRow<'_>) -> (r: bool)
        requires
            cond_regexes_valid(prep_model(self)),
        ensures
            r == cond_holds(prep_model(self), row.values.deep_view(), row.index.deep_view()),
        decreases self,
    {
        match self {
            PreparedCondition::Or(conditions) => {
                let n = conditions.len();
                let mut i: usize = 0;
                while i < n
                    invariant
                        n == conditions@.len(),
                        i <= n,
                        cond_regexes_valid(prep_model(self)),
                        forall|k: int|
                            0 <= k < i ==> !cond_holds(
                                prep_model(self).arrow_Or_conditions()[k],
                                row.values.deep_view(),
                                row.index.deep_view(),
                            ),
                    decreases n - i,
                {
                    proof {
                        lemma_prep_model_list(conditions@, conditions@.len() as nat);
                        assert(prep_model(self).arrow_Or_conditions()[i as int] == prep_model(
                            &conditions@[i as int],
                        ));
                        assert(cond_regexes_valid(prep_model(self).arrow_Or_conditions()[i as int]));
                    }
                    if conditions[i].evaluate(row) {
                        proof {
                            assert(cond_holds(
                                prep_model(self).arrow_Or_conditions()[i as int],
                                row.values.deep_view(),
                                row.index.deep_view(),
                            ));
                        }
                        return true;
                    }
                    i = i + 1;
                }
                proof {
                    lemma_prep_model_list(conditions@, conditions@.len() as nat);
                }
                false
            },
            PreparedCondition::And(conditions) => {
                let n = conditions.len();
                let mut i: usize = 0;
                while i < n
                    invariant
                        n == conditions@.len(),
                        i <= n,
                        cond_regexes_valid(prep_model(self)),
                        forall|k: int|
                            0 <= k < i ==> cond_holds(
                                prep_model(self).arrow_And_conditions()[k],
                                row.values.deep_view(),
                                row.index.deep_view(),
                            ),
                    decreases n - i,
                {
                    proof {
                        lemma_prep_model_list(conditions@, conditions@.len() as nat);
                        assert(prep_model(self).arrow_And_conditions()[i as int] == prep_model(
                            &conditions@[i as int],
                        ));
                        assert(cond_regexes_valid(
                            prep_model(self).arrow_And_conditions()[i as int],
                        ));
                    }
                    if !conditions[i].evaluate(row) {
                        return false;
                    }
                    i = i + 1;
                }
                proof {
                    lemma_prep_model_list(conditions@, conditions@.len() as nat);
                }
                true
            },
            PreparedCondition::ColumnEquals { column, value } => match row.get_string(column) {
                Some(s) => s == *value,
                None => false,
            },
            PreparedCondition::ColumnMatches { column, pattern } => {
                match row.get_string(column) {
                    Some(s) => crate::outside::regex_is_match(pattern.as_str(), s.as_str()),
                    None => false,
                }
            },
            PreparedCondition::ColumnNotEmpty { column } => match row.get(column) {
                Some(v) => match v {
                    RowValue::Null => false,
                    RowValue::Text(s) => !s.as_str().is_empty(),
                    RowValue::Integer(i) => {
                        proof {
                            crate::text::lemma_dec_digits_nonempty(
                                if *i >= 0 {
                                    *i as nat
                                } else {
                                    (0 - *i) as nat
                                },
                            );
                        }
                        true
                    },
                    RowValue::Boolean(_) => {
                        proof {
                            reveal_strlit("true");
                            reveal_strlit("false");
                        }
                        true
                    },
                    RowValue::Float(_) => true,
                },
                None => false,
            },
        }
    }
}

/// Rule for extracting events from change tables: rows matching the
/// conditions yield events of the given type.
#[derive(Debug)]
pub struct ChangeTableEventRule {
    pub id: String,
    pub event_type: String,
    pub conditions: ChangeTableCondition,
}

/// Mapping from a source column to an attribute name.
#[derive(Debug)]
pub struct AttributeMapping {
    pub id: String,
    pub source_column: String,
    pub attribute_name: String,
}

/// Configuration for extracting attributes: a fixed list of column
/// mappings, or a pair of name and value columns.
#[derive(Debug)]
pub enum AttributeConfig {
    Static { mappings: Vec<AttributeMapping> },
    Dynamic { name_column: String, value_column: String },
}

/// The column names an attribute configuration reads.
pub open spec fn attr_config_refs(c: &AttributeConfig) -> Seq<Seq<char>> {
    match c {
        AttributeConfig::Static { mappings } => attr_mapping_refs(mappings@, mappings@.len() as nat),
        AttributeConfig::Dynamic { name_column, value_column } => (if name_column@.len() > 0 {
            seq![name_column@]
        } else {
            Seq::<Seq<char>>::empty()
        }) + (if value_column@.len() > 0 {
            seq![value_column@]
        } else {
            Seq::<Seq<char>>::empty()
        }),
    }
}

/// The non-empty source columns of the first `i` mappings.
pub open spec fn attr_mapping_refs(ms: Seq<AttributeMapping>, i: nat) -> Seq<Seq<char>>
    decreases i,
{
    if i == 0 || i > ms.len() {
        Seq::empty()
    } else {
        attr_mapping_refs(ms, (i - 1) as nat) + (if ms[i - 1].source_column@.len() > 0 {
            seq![ms[i - 1].source_column@]
        } else {
            Seq::<Seq<char>>::empty()
        })
    }
}

impl AttributeConfig {
    /// Appends the column names this configuration reads.
    pub fn referenced_columns(&self, out: &mut Vec<String>)
        ensures
            final(out).deep_view() == old(out).deep_view() + attr_config_refs(self),
    {
        match self {
            AttributeConfig::Static { mappings } => {
                let n = mappings.len();
                let mut i: usize = 0;
                proof {
                    assert(out.deep_view() =~= old(out).deep_view() + attr_mapping_refs(
                        mappings@,
                        0,
                    ));
                }
                while i < n
                    invariant
                        n == mappings@.len(),
                        i <= n,
                        out.deep_view() == old(out).deep_view() + attr_mapping_refs(
                            mappings@,
                            i as nat,
                        ),
                    decreases n - i,
                {
                    if !mappings[i].source_column.as_str().is_empty() {
                        let ghost out0 = out.deep_view();
                        out.push(mappings[i].source_column.clone());
                        proof {
                            assert(mappings@[i as int].source_column@.len() > 0);
                            assert(out.deep_view() =~= out0.push(
                                mappings@[i as int].source_column@,
                            ));
                            assert(attr_mapping_refs(mappings@, (i + 1) as nat)
                                =~= attr_mapping_refs(mappings@, i as nat) + seq![
                                mappings@[i as int].source_column@,
                            ]);
                            assert(out.deep_view() =~= old(out).deep_view() + attr_mapping_refs(
                                mappings@,
                                (i + 1) as nat,
                            ));
                        }
                    } else {
                        proof {
                            assert(mappings@[i as int].source_column@.len() == 0);
                            assert(out.deep_view() =~= old(out).deep_view() + attr_mapping_refs(
                                mappings@,
                                (i + 1) as nat,
                            ));
                        }
                    }
                    i = i + 1;
                }
            },
            AttributeConfig::Dynamic { name_column, value_column } => {
                if !name_column.as_str().is_empty() {
                    out.push(name_column.clone());
                }
                if !value_column.as_str().is_empty() {
                    out.push(value_column.clone());
                }
                proof {
                    assert(out.deep_view() =~= old(out).deep_view() + attr_config_refs(self));
                }
            },
        }
    }
}

/// How a multi-valued reference cell is split into single values.
#[derive(Debug)]
pub struct MultiValueConfig {
    pub enabled: bool,
    pub delimiter: String,
    pub trim_values: bool,
}

/// A reference from a row to an object: the object id expression, an
/// optional type, an optional qualifier, and optional multi-value
/// splitting.
#[derive(Debug)]
pub struct InlineObjectReference {
    pub id: String,
    pub object_id: ValueExpression,
    pub object_type: Option<ObjectTypeSpec>,
    pub qualifier: Option<ValueExpression>,
    pub multi_value_config: Option<MultiValueConfig>,
}

/// An object type, fixed or derived from the row.
#[derive(Debug)]
pub enum ObjectTypeSpec {
    Fixed(String),
    Expression(ValueExpression),
}

impl ObjectTypeSpec {
    /// Evaluates the type: a non-empty fixed name yields itself.
    pub fn evaluate(&self, row: &IndexedRow<'_>) -> (r: Option<String>)
        ensures
            match r {
                Some(s) => object_type_eval(
                    self,
                    row.values.deep_view(),
                    row.index.deep_view(),
                ) == Some(s@),
                None => object_type_eval(
                    self,
                    row.values.deep_view(),
                    row.index.deep_view(),
                ) is None,
            },
    {
        match self {
            ObjectTypeSpec::Fixed(s) => {
                if !s.as_str().is_empty() {
                    Some(s.clone())
                } else {
                    None
                }
            },
            ObjectTypeSpec::Expression(expr) => expr.evaluate(row),
        }
    }

    /// Appends the column names this type specification reads.
    pub fn referenced_columns(&self, out: &mut Vec<String>)
        ensures
            final(out).deep_view() == old(out).deep_view() + object_type_refs(self),
    {
        match self {
            ObjectTypeSpec::Fixed(_) => {
                proof {
                    assert(out.deep_view() =~= old(out).deep_view() + object_type_refs(self));
                }
            },
            ObjectTypeSpec::Expression(expr) => {
                expr.referenced_columns(out);
            },
        }
    }
}

/// The meaning of an object type specification on a row.
pub open spec fn object_type_eval(
    t: &ObjectTypeSpec,
    values: Seq<RowVal>,
    index: Seq<(Seq<char>, usize)>,
) -> Option<Seq<char>> {
    match t {
        ObjectTypeSpec::Fixed(s) => if s@.len() > 0 {
            Some(s@)
        } else {
            None
        },
        ObjectTypeSpec::Expression(expr) => value_expr_eval(expr.deep_view(), values, index),
    }
}

/// The column names an object type specification reads.
pub open spec fn object_type_refs(t: &ObjectTypeSpec) -> Seq<Seq<char>> {
    match t {
        ObjectTypeSpec::Fixed(_) => Seq::empty(),
        ObjectTypeSpec::Expression(expr) => value_expr_refs(expr.deep_view()),
    }
}

/// Whether a character counts as trimmable whitespace.
pub open spec fn is_ws(c: char) -> bool {
    c == ' ' || c == '\t' || c == '\n' || c == '\r'
}

/// The text without leading whitespace.
pub open spec fn trim_front(s: Seq<char>) -> Seq<char>
    decreases s.len(),
{
    if s.len() > 0 && is_ws(s[0]) {
        trim_front(s.skip(1))
    } else {
        s
    }
}

/// The text without trailing whitespace.
pub open spec fn trim_back(s: Seq<char>) -> Seq<char>
    decreases s.len(),
{
    if s.len() > 0 && is_ws(s.last()) {
        trim_back(s.drop_last())
    } else {
        s
    }
}

/// The text without leading and trailing whitespace.
pub open spec fn trim_chars(s: Seq<char>) -> Seq<char> {
    trim_back(trim_front(s))
}

/// The first position at or after `i` where the delimiter occurs.
pub open spec fn find_sub_from(s: Seq<char>, d: Seq<char>, i: int) -> Option<int>
    decreases s.len() - i,
{
    if i < 0 || i + d.len() > s.len() || d.len() == 0 {
        None
    } else if s.subrange(i, i + d.len() as int) == d {
        Some(i)
    } else {
        find_sub_from(s, d, i + 1)
    }
}

/// The parts of `s` from position `i` on, split at each occurrence of the
/// delimiter; meaningful for a non-empty delimiter.
pub open spec fn split_from(s: Seq<char>, d: Seq<char>, i: int) -> Seq<Seq<char>>
    decreases s.len() - i,
{
    if i < 0 || i > s.len() {
        Seq::empty()
    } else {
        match find_sub_from(s, d, i) {
            None => seq![s.subrange(i, s.len() as int)],
            Some(j) => if j < i || j + d.len() <= i || j + d.len() > s.len() {
                seq![s.subrange(i, s.len() as int)]
            } else {
                seq![s.subrange(i, j)] + split_from(s, d, j + d.len() as int)
            },
        }
    }
}

/// The split parts, each optionally trimmed, with empty parts dropped.
pub open spec fn clean_parts(parts: Seq<Seq<char>>, trim: bool) -> Seq<Seq<char>>
    decreases parts.len(),
{
    if parts.len() == 0 {
        Seq::empty()
    } else {
        let cleaned = if trim {
            trim_chars(parts.last())
        } else {
            parts.last()
        };
        clean_parts(parts.drop_last(), trim) + if cleaned.len() > 0 {
            seq![cleaned]
        } else {
            Seq::empty()
        }
    }
}

/// The object ids an inline reference extracts from a row: the id
/// expression's value, split when multi-value splitting is enabled with a
/// non-empty delimiter.
pub open spec fn extract_ids_spec(
    r: &InlineObjectReference,
    values: Seq<RowVal>,
    index: Seq<(Seq<char>, usize)>,
) -> Seq<Seq<char>> {
    match value_expr_eval(r.object_id.deep_view(), values, index) {
        Some(v) => if v.len() == 0 {
            Seq::empty()
        } else {
            match r.multi_value_config {
                Some(cfg) => if cfg.enabled && cfg.delimiter@.len() > 0 {
                    clean_parts(split_from(v, cfg.delimiter@, 0), cfg.trim_values)
                } else {
                    seq![v]
                },
                None => seq![v],
            }
        },
        None => Seq::empty(),
    }
}

/// The first position at or after `from` where the delimiter occurs.
fn find_sub(s: &Vec<char>, d: &Vec<char>, from: usize) -> (r: Option<usize>)
    requires
        d@.len() > 0,
    ensures
        match r {
            Some(j) => find_sub_from(s@, d@, from as int) == Some(j as int) && from <= j && j
                + d@.len() <= s@.len(),
            None => find_sub_from(s@, d@, from as int) is None,
        },
{
    let n = s.len();
    let m = d.len();
    let mut i: usize = from;
    if i > n || m > n || i > n - m {
        proof {
            assert(find_sub_from(s@, d@, from as int) is None) by {
                lemma_find_sub_none(s@, d@, from as int);
            }
        }
        return None;
    }
    while i <= n - m
        invariant
            n == s@.len(),
            m == d@.len(),
            m > 0,
            m <= n,
            from <= i,
            i <= n - m + 1,
            find_sub_from(s@, d@, from as int) == find_sub_from(s@, d@, i as int),
        decreases n - i,
    {
        let mut k: usize = 0;
        let mut matches = true;
        while k < m
            invariant
                n == s@.len(),
                m == d@.len(),
                i + m <= n,
                k <= m,
                matches == (s@.subrange(i as int, i + k) =~= d@.subrange(0, k as int)),
            decreases m - k,
        {
            proof {
                assert(s@.subrange(i as int, i + k + 1).drop_last() =~= s@.subrange(
                    i as int,
                    i + k,
                ));
                assert(d@.subrange(0, k + 1).drop_last() =~= d@.subrange(0, k as int));
                assert(s@.subrange(i as int, i + k + 1).last() == s@[i + k]);
                assert(d@.subrange(0, k + 1).last() == d@[k as int]);
            }
            if s[i + k] != d[k] {
                matches = false;
                proof {
                    assert(s@.subrange(i as int, i + k + 1)[k as int] != d@.subrange(0, k + 1)[
                        k as int
                    ]);
                }
            }
            proof {
                if matches {
                    assert(s@.subrange(i as int, i + k + 1) =~= d@.subrange(0, k + 1));
                }
                if !matches && s@.subrange(i as int, i + k) =~= d@.subrange(0, k as int)
                    && s@[i + k] == d@[k as int] {
                    assert(s@.subrange(i as int, i + k + 1) =~= d@.subrange(0, k + 1));
                }
            }
            k = k + 1;
        }
        proof {
            assert(d@.subrange(0, m as int) =~= d@);
        }
        if matches {
            proof {
                assert(s@.subrange(i as int, i + m) =~= d@);
            }
            return Some(i);
        }
        proof {
            assert(s@.subrange(i as int, i + m) != d@);
        }
        i = i + 1;
    }
    proof {
        lemma_find_sub_none(s@, d@, i as int);
    }
    None
}

/// Past the last possible start, no occurrence exists.
proof fn lemma_find_sub_none(s: Seq<char>, d: Seq<char>, i: int)
    requires
        i + d.len() > s.len() || i < 0,
    ensures
        i >= 0 ==> find_sub_from(s, d, i) is None,
{
}

/// Trims leading and trailing whitespace.
fn trim_exec(s: &Vec<char>) -> (r: Vec<char>)
    ensures
        r@ == trim_chars(s@),
{
    let n = s.len();
    let mut lo: usize = 0;
    proof {
        assert(s@.skip(0) =~= s@);
    }
    while lo < n && is_ws_exec(s[lo])
        invariant
            n == s@.len(),
            lo <= n,
            trim_front(s@) == trim_front(s@.skip(lo as int)),
        decreases n - lo,
    {
        proof {
            assert(s@.skip(lo as int)[0] == s@[lo as int]);
            assert(s@.skip(lo as int).skip(1) =~= s@.skip(lo + 1));
        }
        lo = lo + 1;
    }
    proof {
        if lo < n {
            assert(s@.skip(lo as int)[0] == s@[lo as int]);
        }
        assert(trim_front(s@) =~= s@.skip(lo as int));
    }
    let mut hi: usize = n;
    while hi > lo && is_ws_exec(s[hi - 1])
        invariant
            n == s@.len(),
            lo <= hi <= n,
            trim_front(s@) == s@.skip(lo as int),
            trim_back(s@.skip(lo as int)) == trim_back(s@.subrange(lo as int, hi as int)),
        decreases hi,
    {
        proof {
            assert(s@.subrange(lo as int, hi as int).last() == s@[hi - 1]);
            assert(s@.subrange(lo as int, hi as int).drop_last() =~= s@.subrange(
                lo as int,
                hi - 1,
            ));
        }
        hi = hi - 1;
    }
    proof {
        if hi > lo {
            assert(s@.subrange(lo as int, hi as int).last() == s@[hi - 1]);
        }
        assert(trim_back(s@.subrange(lo as int, hi as int)) =~= s@.subrange(lo as int, hi as int));
    }
    let mut out: Vec<char> = Vec::new();
    let mut k: usize = lo;
    while k < hi
        invariant
            n == s@.len(),
            lo <= k <= hi <= n,
            out@ =~= s@.subrange(lo as int, k as int),
        decreases hi - k,
    {
        out.push(s[k]);
        proof {
            assert(out@ =~= s@.subrange(lo as int, k + 1));
        }
        k = k + 1;
    }
    proof {
        assert(out@ =~= trim_chars(s@));
    }
    out
}

/// Whether the character is trimmable whitespace.
fn is_ws_exec(c: char) -> (r: bool)
    ensures
        r == is_ws(c),
{
    c == ' ' || c == '\t' || c == '\n' || c == '\r'
}

impl InlineObjectReference {
    /// Appends the column names this reference reads: the id expression,
    /// the type if derived, and the qualifier expression if any.
    pub fn referenced_columns(&self, out: &mut Vec<String>)
        ensures
            final(out).deep_view() == old(out).deep_view() + inline_ref_refs(self),
    {
        self.object_id.referenced_columns(out);
        match &self.object_type {
            Some(t) => {
                t.referenced_columns(out);
            },
            None => {},
        }
        match &self.qualifier {
            Some(q) => {
                q.referenced_columns(out);
            },
            None => {},
        }
        proof {
            assert(out.deep_view() =~= old(out).deep_view() + inline_ref_refs(self));
        }
    }

    /// Extracts the object ids this reference yields on a row, splitting a
    /// multi-valued cell; exactly [`extract_ids_spec`].
    pub fn extract_object_ids(&self, row: &IndexedRow<'_>) -> (r: Vec<String>)
        ensures
            r.deep_view() == extract_ids_spec(self, row.values.deep_view(), row.index.deep_view()),
    {
        let raw = match self.object_id.evaluate(row) {
            Some(v) => {
                if v.as_str().is_empty() {
                    let out: Vec<String> = Vec::new();
                    proof {
                        assert(out.deep_view() =~= extract_ids_spec(
                            self,
                            row.values.deep_view(),
                            row.index.deep_view(),
                        ));
                    }
                    return out;
                }
                v
            },
            None => {
                let out: Vec<String> = Vec::new();
                proof {
                    assert(out.deep_view() =~= extract_ids_spec(
                        self,
                        row.values.deep_view(),
                        row.index.deep_view(),
                    ));
                }
                return out;
            },
        };
        let split_now = match &self.multi_value_config {
            Some(cfg) => cfg.enabled && !cfg.delimiter.as_str().is_empty(),
            None => false,
        };
        if !split_now {
            let mut out: Vec<String> = Vec::new();
            out.push(raw);
            proof {
                assert(out.deep_view() =~= extract_ids_spec(
                    self,
                    row.values.deep_view(),
                    row.index.deep_view(),
                ));
            }
            return out;
        }
        let cfg = match &self.multi_value_config {
            Some(cfg) => cfg,
            None => {
                return Vec::new();
            },
        };
        let chars = chars_vec(raw.as_str());
        let delim = chars_vec(cfg.delimiter.as_str());
        // gather the raw parts in order
        let mut parts: Vec<Vec<char>> = Vec::new();
        let n = chars.len();
        let mut i: usize = 0;
        let mut done = false;
        while !done
            invariant
                n == chars@.len(),
                delim@.len() > 0,
                delim@ == cfg.delimiter@,
                i <= n,
                !done ==> parts_model(parts@) + split_from(chars@, delim@, i as int) =~= split_from(
                    chars@,
                    delim@,
                    0,
                ),
                done ==> parts_model(parts@) =~= split_from(chars@, delim@, 0),
            decreases n - i + (if done { 0int } else { 1int }),
        {
            match find_sub(&chars, &delim, i) {
                Some(j) => {
                    let mut part: Vec<char> = Vec::new();
                    let mut k: usize = i;
                    while k < j
                        invariant
                            n == chars@.len(),
                            i <= k <= j,
                            j + delim@.len() <= n,
                            part@ =~= chars@.subrange(i as int, k as int),
                        decreases j - k,
                    {
                        part.push(chars[k]);
                        proof {
                            assert(part@ =~= chars@.subrange(i as int, k + 1));
                        }
                        k = k + 1;
                    }
                    let ghost old_parts = parts@;
                    parts.push(part);
                    proof {
                        assert(parts_model(parts@) =~= parts_model(old_parts) + seq![
                            chars@.subrange(i as int, j as int),
                        ]);
                    }
                    i = j + delim.len();
                },
                None => {
                    let mut part: Vec<char> = Vec::new();
                    let mut k: usize = i;
                    while k < n
                        invariant
                            n == chars@.len(),
                            i <= k <= n,
                            part@ =~= chars@.subrange(i as int, k as int),
                        decreases n - k,
                    {
                        part.push(chars[k]);
                        proof {
                            assert(part@ =~= chars@.subrange(i as int, k + 1));
                        }
                        k = k + 1;
                    }
                    let ghost old_parts = parts@;
                    parts.push(part);
                    proof {
                        assert(parts_model(parts@) =~= parts_model(old_parts) + seq![
                            chars@.subrange(i as int, n as int),
                        ]);
                    }
                    done = true;
                },
            }
        }
        // clean the parts: trim if configured, drop empties
        let trim = cfg.trim_values;
        let m = parts.len();
        let mut out: Vec<String> = Vec::new();
        let mut w: usize = 0;
        proof {
            assert(parts_model(parts@).take(0) =~= Seq::<Seq<char>>::empty());
            lemma_clean_parts_empty(trim);
        }
        while w < m
            invariant
                m == parts@.len(),
                w <= m,
                out.deep_view() =~= clean_parts(parts_model(parts@).take(w as int), trim),
            decreases m - w,
        {
            proof {
                assert(parts_model(parts@).take(w + 1).drop_last() =~= parts_model(
                    parts@,
                ).take(w as int));
                assert(parts_model(parts@).take(w + 1).last() == parts@[w as int]@);
            }
            let cleaned = if trim {
                trim_exec(&parts[w])
            } else {
                let mut c: Vec<char> = Vec::new();
                let pn = parts[w].len();
                let mut k: usize = 0;
                while k < pn
                    invariant
                        w < m,
                        m == parts@.len(),
                        pn == parts@[w as int]@.len(),
                        k <= pn,
                        c@ =~= parts@[w as int]@.take(k as int),
                    decreases pn - k,
                {
                    c.push(parts[w][k]);
                    proof {
                        assert(c@ =~= parts@[w as int]@.take(k + 1));
                    }
                    k = k + 1;
                }
                proof {
                    assert(c@ =~= parts@[w as int]@);
                }
                c
            };
            if cleaned.len() > 0 {
                let mut s = String::new();
                crate::text::push_chars(&mut s, &cleaned);
                let ghost old_out = out.deep_view();
                out.push(s);
                proof {
                    assert(out.deep_view() =~= old_out.push(cleaned@));
                    assert(out.deep_view() =~= clean_parts(
                        parts_model(parts@).take(w + 1),
                        trim,
                    ));
                }
            } else {
                proof {
                    assert(out.deep_view() =~= clean_parts(
                        parts_model(parts@).take(w + 1),
                        trim,
                    ));
                }
            }
            w = w + 1;
        }
        proof {
            assert(parts_model(parts@).take(m as int) =~= parts_model(parts@));
            assert(out.deep_view() =~= extract_ids_spec(
                self,
                row.values.deep_view(),
                row.index.deep_view(),
            ));
        }
        out
    }
}

/// The column names an inline reference reads.
pub open spec fn inline_ref_refs(r: &InlineObjectReference) -> Seq<Seq<char>> {
    value_expr_refs(r.object_id.deep_view()) + (match &r.object_type {
        Some(t) => object_type_refs(t),
        None => Seq::<Seq<char>>::empty(),
    }) + (match &r.qualifier {
        Some(q) => value_expr_refs(q.deep_view()),
        None => Seq::<Seq<char>>::empty(),
    })
}

/// The views of a list of character vectors.
pub open spec fn parts_model(parts: Seq<Vec<char>>) -> Seq<Seq<char>> {
    parts.map_values(|p: Vec<char>| p@)
}

/// Cleaning no parts yields no parts.
proof fn lemma_clean_parts_empty(trim: bool)
    ensures
        clean_parts(Seq::empty(), trim) =~= Seq::<Seq<char>>::empty(),
{
}

/// How a table takes part in the extraction.
#[derive(Debug)]
pub enum TableUsageData {
    /// The table is not used.
    Unused,
    /// Each row is an object of one fixed type.
    SingleObject { object_type: String, id: ValueExpression },
    /// Each row is an object whose type comes from the row.
    MultiObject { object_type: ValueExpression, id: ValueExpression },
    /// Each row is an event of one fixed type.
    SingleEvent {
        event_type: String,
        id: ValueExpression,
        timestamp: TimestampSource,
        inline_object_references: Vec<InlineObjectReference>,
    },
    /// Each row is an event whose type comes from the row.
    MultiEvent {
        event_type: ValueExpression,
        id: ValueExpression,
        timestamp: TimestampSource,
        inline_object_references: Vec<InlineObjectReference>,
    },
    /// Each row links an event to an object.
    E2ORelation {
        source_event: ValueExpression,
        target_object: ValueExpression,
        qualifier: Option<ValueExpression>,
    },
    /// Each row links an object to another object.
    O2ORelation {
        source_object: ValueExpression,
        target_object: ValueExpression,
        qualifier: Option<ValueExpression>,
    },
    /// Rows matching per-rule conditions yield events.
    ChangeTableEvents {
        timestamp: TimestampSource,
        id: Option<ValueExpression>,
        event_rules: Vec<ChangeTableEventRule>,
        inline_object_references: Vec<InlineObjectReference>,
    },
    /// Rows carry timed attribute changes of objects.
    ChangeTableObjectChanges {
        object_id: ValueExpression,
        object_type: String,
        timestamp: TimestampSource,
        attribute_config: AttributeConfig,
    },
}

/// The concatenated column references of the first `i` inline references.
pub open spec fn inline_refs_list(rs: Seq<InlineObjectReference>, i: nat) -> Seq<Seq<char>>
    decreases i,
{
    if i == 0 || i > rs.len() {
        Seq::empty()
    } else {
        inline_refs_list(rs, (i - 1) as nat) + inline_ref_refs(&rs[i - 1])
    }
}

/// The concatenated condition references of the first `i` event rules.
pub open spec fn rules_refs_list(rs: Seq<ChangeTableEventRule>, i: nat) -> Seq<Seq<char>>
    decreases i,
{
    if i == 0 || i > rs.len() {
        Seq::empty()
    } else {
        rules_refs_list(rs, (i - 1) as nat) + cond_refs(cond_model(&rs[i - 1].conditions))
    }
}

/// The column names a usage configuration requires, in reading order and
/// with duplicates kept.
pub open spec fn usage_refs(u: &TableUsageData) -> Seq<Seq<char>> {
    match u {
        TableUsageData::Unused => Seq::empty(),
        TableUsageData::SingleObject { id, .. } => value_expr_refs(id.deep_view()),
        TableUsageData::MultiObject { object_type, id } => value_expr_refs(object_type.deep_view())
            + value_expr_refs(id.deep_view()),
        TableUsageData::SingleEvent { id, timestamp, inline_object_references, .. } => value_expr_refs(
            id.deep_view(),
        ) + ts_source_refs(timestamp.deep_view()) + inline_refs_list(
            inline_object_references@,
            inline_object_references@.len() as nat,
        ),
        TableUsageData::MultiEvent { event_type, id, timestamp, inline_object_references } => value_expr_refs(
            event_type.deep_view(),
        ) + value_expr_refs(id.deep_view()) + ts_source_refs(timestamp.deep_view())
            + inline_refs_list(
            inline_object_references@,
            inline_object_references@.len() as nat,
        ),
        TableUsageData::E2ORelation { source_event, target_object, qualifier } => value_expr_refs(
            source_event.deep_view(),
        ) + value_expr_refs(target_object.deep_view()) + (match qualifier {
            Some(q) => value_expr_refs(q.deep_view()),
            None => Seq::<Seq<char>>::empty(),
        }),
        TableUsageData::O2ORelation { source_object, target_object, qualifier } => value_expr_refs(
            source_object.deep_view(),
        ) + value_expr_refs(target_object.deep_view()) + (match qualifier {
            Some(q) => value_expr_refs(q.deep_view()),
            None => Seq::<Seq<char>>::empty(),
        }),
        TableUsageData::ChangeTableEvents { timestamp, id, event_rules, inline_object_references } => ts_source_refs(
            timestamp.deep_view(),
        ) + (match id {
            Some(e) => value_expr_refs(e.deep_view()),
            None => Seq::<Seq<char>>::empty(),
        }) + rules_refs_list(event_rules@, event_rules@.len() as nat) + inline_refs_list(
            inline_object_references@,
            inline_object_references@.len() as nat,
        ),
        TableUsageData::ChangeTableObjectChanges { object_id, timestamp, attribute_config, .. } => value_expr_refs(
            object_id.deep_view(),
        ) + ts_source_refs(timestamp.deep_view()) + attr_config_refs(attribute_config),
    }
}

/// The distinct strings of `s`, first occurrences in order.
pub open spec fn dedup_strings(s: Seq<Seq<char>>) -> Seq<Seq<char>>
    decreases s.len(),
{
    if s.len() == 0 {
        Seq::empty()
    } else {
        let prev = dedup_strings(s.drop_last());
        if prev.contains(s.last()) {
            prev
        } else {
            prev.push(s.last())
        }
    }
}

impl TableUsageData {
    /// The column names this usage requires, each once, in reading order.
    pub fn required_columns(&self) -> (r: Vec<String>)
        ensures
            r.deep_view() == dedup_strings(usage_refs(self)),
    {
        let mut cols: Vec<String> = Vec::new();
        match self {
            TableUsageData::Unused => {},
            TableUsageData::SingleObject { id, .. } => {
                id.referenced_columns(&mut cols);
            },
            TableUsageData::MultiObject { object_type, id } => {
                object_type.referenced_columns(&mut cols);
                id.referenced_columns(&mut cols);
            },
            TableUsageData::SingleEvent { id, timestamp, inline_object_references, .. } => {
                id.referenced_columns(&mut cols);
                timestamp.referenced_columns(&mut cols);
                push_inline_refs(&mut cols, inline_object_references);
            },
            TableUsageData::MultiEvent { event_type, id, timestamp, inline_object_references } => {
                event_type.referenced_columns(&mut cols);
                id.referenced_columns(&mut cols);
                timestamp.referenced_columns(&mut cols);
                push_inline_refs(&mut cols, inline_object_references);
            },
            TableUsageData::E2ORelation { source_event, target_object, qualifier } => {
                source_event.referenced_columns(&mut cols);
                target_object.referenced_columns(&mut cols);
                match qualifier {
                    Some(q) => {
                        q.referenced_columns(&mut cols);
                    },
                    None => {},
                }
            },
            TableUsageData::O2ORelation { source_object, target_object, qualifier } => {
                source_object.referenced_columns(&mut cols);
                target_object.referenced_columns(&mut cols);
                match qualifier {
                    Some(q) => {
                        q.referenced_columns(&mut cols);
                    },
                    None => {},
                }
            },
            TableUsageData::ChangeTableEvents {
                timestamp,
                id,
                event_rules,
                inline_object_references,
            } => {
                timestamp.referenced_columns(&mut cols);
                match id {
                    Some(e) => {
                        e.referenced_columns(&mut cols);
                    },
                    None => {},
                }
                let n = event_rules.len();
                let mut i: usize = 0;
                let ghost base = cols.deep_view();
                while i < n
                    invariant
                        n == event_rules@.len(),
                        i <= n,
                        cols.deep_view() == base + rules_refs_list(event_rules@, i as nat),
                    decreases n - i,
                {
                    event_rules[i].conditions.referenced_columns(&mut cols);
                    proof {
                        assert(cols.deep_view() =~= base + rules_refs_list(
                            event_rules@,
                            (i + 1) as nat,
                        ));
                    }
                    i = i + 1;
                }
                push_inline_refs(&mut cols, inline_object_references);
            },
            TableUsageData::ChangeTableObjectChanges {
                object_id,
                timestamp,
                attribute_config,
                ..
            } => {
                object_id.referenced_columns(&mut cols);
                timestamp.referenced_columns(&mut cols);
                attribute_config.referenced_columns(&mut cols);
            },
        }
        proof {
            assert(cols.deep_view() =~= usage_refs(self));
        }
        dedup_string_vec(&cols)
    }

    /// Processing order: objects first, then events, then relations; an
    /// unused table last.
    pub fn processing_order(&self) -> (r: u8)
        ensures
            r == processing_order_spec(self),
    {
        match self {
            TableUsageData::Unused => 255,
            TableUsageData::SingleObject { .. } => 0,
            TableUsageData::MultiObject { .. } => 0,
            TableUsageData::ChangeTableObjectChanges { .. } => 0,
            TableUsageData::SingleEvent { .. } => 1,
            TableUsageData::MultiEvent { .. } => 1,
            TableUsageData::ChangeTableEvents { .. } => 1,
            TableUsageData::E2ORelation { .. } => 2,
            TableUsageData::O2ORelation { .. } => 2,
        }
    }
}

/// Processing order: objects (0), events (1), relations (2), unused (255).
pub open spec fn processing_order_spec(u: &TableUsageData) -> u8 {
    match u {
        TableUsageData::Unused => 255,
        TableUsageData::SingleObject { .. } => 0,
        TableUsageData::MultiObject { .. } => 0,
        TableUsageData::ChangeTableObjectChanges { .. } => 0,
        TableUsageData::SingleEvent { .. } => 1,
        TableUsageData::MultiEvent { .. } => 1,
        TableUsageData::ChangeTableEvents { .. } => 1,
        TableUsageData::E2ORelation { .. } => 2,
        TableUsageData::O2ORelation { .. } => 2,
    }
}

/// Appends the references of every inline reference, in order.
fn push_inline_refs(cols: &mut Vec<String>, refs: &Vec<InlineObjectReference>)
    ensures
        final(cols).deep_view() == old(cols).deep_view() + inline_refs_list(
            refs@,
            refs@.len() as nat,
        ),
{
    let n = refs.len();
    let mut i: usize = 0;
    proof {
        assert(cols.deep_view() =~= old(cols).deep_view() + inline_refs_list(refs@, 0));
    }
    while i < n
        invariant
            n == refs@.len(),
            i <= n,
            cols.deep_view() == old(cols).deep_view() + inline_refs_list(refs@, i as nat),
        decreases n - i,
    {
        refs[i].referenced_columns(cols);
        proof {
            assert(cols.deep_view() =~= old(cols).deep_view() + inline_refs_list(
                refs@,
                (i + 1) as nat,
            ));
        }
        i = i + 1;
    }
}

/// The distinct strings of `cols`, first occurrences in order.
fn dedup_string_vec(cols: &Vec<String>) -> (r: Vec<String>)
    ensures
        r.deep_view() == dedup_strings(cols.deep_view()),
{
    let mut out: Vec<String> = Vec::new();
    let n = cols.len();
    let mut i: usize = 0;
    proof {
        assert(cols.deep_view().take(0) =~= Seq::<Seq<char>>::empty());
    }
    while i < n
        invariant
            n == cols@.len(),
            i <= n,
            out.deep_view() == dedup_strings(cols.deep_view().take(i as int)),
        decreases n - i,
    {
        proof {
            assert(cols.deep_view().take(i + 1).drop_last() =~= cols.deep_view().take(i as int));
            assert(cols.deep_view().take(i + 1).last() == cols.deep_view()[i as int]);
            assert(cols.deep_view()[i as int] == cols@[i as int]@);
        }
        let mut seen = false;
        let m = out.len();
        let mut k: usize = 0;
        while k < m
            invariant
                m == out@.len(),
                i < n,
                n == cols@.len(),
                k <= m,
                seen == out.deep_view().take(k as int).contains(cols@[i as int]@),
            decreases m - k,
        {
            proof {
                assert(out.deep_view().take(k + 1).drop_last() =~= out.deep_view().take(k as int));
                assert(out.deep_view().take(k + 1).last() == out.deep_view()[k as int]);
                assert(out.deep_view()[k as int] == out@[k as int]@);
            }
            if out[k] == cols[i] {
                seen = true;
            }
            proof {
                if out.deep_view().take(k as int).contains(cols@[i as int]@) {
                    assert(out.deep_view().take(k + 1).contains(cols@[i as int]@));
                }
                if out.deep_view()[k as int] == cols@[i as int]@ {
                    assert(out.deep_view().take(k + 1)[k as int] == cols@[i as int]@);
                }
                if seen != out.deep_view().take(k + 1).contains(cols@[i as int]@) {
                    assert(out.deep_view().take(k + 1).contains(cols@[i as int]@));
                    let w = choose|w: int|
                        0 <= w < k + 1 && #[trigger] out.deep_view().take(k + 1)[w] == cols@[
                            i as int
                        ]@;
                    assert(out.deep_view().take(k as int).contains(cols@[i as int]@)
                        || out.deep_view()[k as int] == cols@[i as int]@);
                }
            }
            k = k + 1;
        }
        proof {
            assert(out.deep_view().take(m as int) =~= out.deep_view());
        }
        if !seen {
            let ghost out0 = out.deep_view();
            out.push(cols[i].clone());
            proof {
                assert(out.deep_view() =~= out0.push(cols@[i as int]@));
            }
        }
        i = i + 1;
    }
    proof {
        assert(cols.deep_view().take(n as int) =~= cols.deep_view());
    }
    out
}

/// One table of a blueprint: where it comes from and how it is used.
#[derive(Debug)]
pub struct TableExtractionConfig {
    pub source_id: String,
    pub table_name: String,
    pub table_info: crate::data_source::DataSourceTableInfo,
    pub usage: TableUsageData,
}

/// The kind of a data source.
#[derive(Debug, Clone, Copy, PartialEq, Eq, Structural)]
pub enum DataSourceType {
    SQLite,
    CSV,
    MySQL,
    PostgreSQL,
}

/// One data source of a blueprint.
#[derive(Debug)]
pub struct DataSourceConfig {
    pub id: String,
    pub source_type: DataSourceType,
    pub name: String,
    pub connection_string: String,
}

/// A full extraction blueprint: sources and table configurations.
#[derive(Debug)]
pub struct DataExtractionBlueprint {
    pub sources: Vec<DataSourceConfig>,
    pub tables: Vec<TableExtractionConfig>,
}

/// A request to run an extraction.
#[derive(Debug)]
pub struct ExecuteExtractionRequest {
    pub blueprint: DataExtractionBlueprint,
}

/// The outcome of an extraction run.
#[derive(Debug)]
pub struct ExecuteExtractionResponse {
    pub success: bool,
    pub total_events: usize,
    pub total_objects: usize,
    pub event_types: Vec<String>,
    pub object_types: Vec<String>,
    pub errors: Vec<String>,
}

/// Tracks counts, types and errors while an extraction runs.
#[derive(Debug)]
pub struct ExtractionContext {
    pub errors: Vec<String>,
    pub event_count: usize,
    pub object_count: usize,
    pub event_types: Vec<String>,
    pub object_types: Vec<String>,
}

impl ExtractionContext {
    /// A fresh context: no counts, no types, no errors.
    pub fn new() -> (r: Self)
        ensures
            r.errors@.len() == 0,
            r.event_count == 0,
            r.object_count == 0,
            r.event_types@.len() == 0,
            r.object_types@.len() == 0,
    {
        ExtractionContext {
            errors: Vec::new(),
            event_count: 0,
            object_count: 0,
            event_types: Vec::new(),
            object_types: Vec::new(),
        }
    }

    /// Closes the context into a response: success means no errors.
    pub fn into_response(self) -> (r: ExecuteExtractionResponse)
        ensures
            r.success == (self.errors@.len() == 0),
            r.total_events == self.event_count,
            r.total_objects == self.object_count,
            r.event_types == self.event_types,
            r.object_types == self.object_types,
            r.errors == self.errors,
    {
        let success = self.errors.len() == 0;
        ExecuteExtractionResponse {
            success,
            total_events: self.event_count,
            total_objects: self.object_count,
            event_types: self.event_types,
            object_types: self.object_types,
            errors: self.errors,
        }
    }

    /// Counts one extracted event and records its type once.
    pub fn track_event(&mut self, event_type: &String)
        requires
            old(self).event_count < usize::MAX,
        ensures
            final(self).event_count == old(self).event_count + 1,
            final(self).event_types.deep_view() == if old(self).event_types.deep_view().contains(
                event_type@,
            ) {
                old(self).event_types.deep_view()
            } else {
                old(self).event_types.deep_view().push(event_type@)
            },
            final(self).object_count == old(self).object_count,
            final(self).object_types == old(self).object_types,
            final(self).errors == old(self).errors,
    {
        self.event_count = self.event_count + 1;
        if !crate::filters::string_vec_contains(&self.event_types, event_type) {
            self.event_types.push(event_type.clone());
        }
    }

    /// Counts one extracted object and records its type once.
    pub fn track_object(&mut self, object_type: &String)
        requires
            old(self).object_count < usize::MAX,
        ensures
            final(self).object_count == old(self).object_count + 1,
            final(self).object_types.deep_view() == if old(self).object_types.deep_view().contains(
                object_type@,
            ) {
                old(self).object_types.deep_view()
            } else {
                old(self).object_types.deep_view().push(object_type@)
            },
            final(self).event_count == old(self).event_count,
            final(self).event_types == old(self).event_types,
            final(self).errors == old(self).errors,
    {
        self.object_count = self.object_count + 1;
        if !crate::filters::string_vec_contains(&self.object_types, object_type) {
            self.object_types.push(object_type.clone());
        }
    }
}

} // verus!
