//! The table layout compiler: named tables hold compiled rows, each an
//! immutable artifact of CSS text, HTML fragments and an optional value-index
//! permutation. Fixed rows resolve every column width up front; soft rows
//! build a layout tree around one flexible column.
use vstd::prelude::*;
use vstd::string::StringExecFns;
use vstd::arithmetic::div_mod::lemma_fundamental_div_mod;

use crate::text::{decimal_seq, decimal_str, selector_seq, views_of, append_selector};

verus! {

/// Handle of one compiled row: the table's index and the row's index in it.
/// Only meaningful against the registry that issued it.
#[derive(Debug, Clone, Copy, PartialEq, Eq, Structural, PartialOrd, Ord, Hash)]
pub struct RowRef {
    table_idx: usize,
    row_idx: usize,
}

/// Handle of one table: its index in the registry that issued it.
#[derive(Debug, Clone, Copy, PartialEq, Eq, Structural)]
pub struct TableRef {
    table_idx: usize,
}

impl RowRef {
    /// The strict order on row handles: table index first, then row index.
    pub open spec fn before(self, other: RowRef) -> bool {
        self.table_index() < other.table_index() || (self.table_index() == other.table_index()
            && self.row_index() < other.row_index())
    }

    pub closed spec fn table_index(self) -> int {
        self.table_idx as int
    }

    pub closed spec fn row_index(self) -> int {
        self.row_idx as int
    }
}

impl TableRef {
    pub closed spec fn table_index(self) -> int {
        self.table_idx as int
    }
}

/// One compiled row: CSS text, ordered markup fragments, and for soft rows
/// the permutation mapping insertion-point index to caller value index.
#[derive(Debug)]
pub(crate) struct Row {
    pub(crate) styles: String,
    pub(crate) divs: Vec<String>,
    pub(crate) args: Option<Vec<usize>>,
}

/// Why a table or row definition was rejected. All of these are configuration
/// errors, detected at compile time and returned, never thrown.
#[derive(Debug)]
pub enum TableError {
    /// A soft row was given zero column specs.
    EmptySoft(String),
    /// A fixed row was requested on a soft table.
    FixedOnSoft(TableRef),
    /// A soft row was requested on a fixed table.
    SoftOnFixed(TableRef),
    /// A soft column spec had zero, or more than one, absent sub-width.
    MustBeOneSoftColumn(String),
    /// The table handle does not resolve against this registry.
    UnknownTable(TableRef),
    /// The row handle does not resolve against this registry.
    UnknownRow(RowRef),
    /// The declared fixed table width cannot hold the requested widths plus
    /// padding.
    FixedRowTooLong { table: String, width: usize, pads: usize, asked: usize, unknown: usize },
    /// The declared minimum width of a soft table does not exceed the fixed
    /// flanking width of the row.
    SoftRowTooLong { table: String, min_width: usize },
}

/// Layout kind of a table: a fixed total width, or a soft minimum width.
#[derive(Debug, Clone, Copy)]
pub(crate) enum TableType {
    Fixed(usize),
    Soft(usize),
}

/// One named table: identifier used in generated class names, layout kind,
/// padding unit, and its append-only compiled rows.
#[derive(Debug)]
pub(crate) struct TableConf {
    pub(crate) index: usize,
    pub(crate) uid: String,
    pub(crate) tp: TableType,
    pub(crate) half_padding: usize,
    pub(crate) rows: Vec<Row>,
}

// ------------------------------------------------------------------
// Arithmetic model of fixed rows
// ------------------------------------------------------------------

/// Sum of the known (present) column widths.
pub open spec fn asked_of(cols: Seq<Option<usize>>) -> int
    decreases cols.len(),
{
    if cols.len() == 0 {
        0
    } else {
        asked_of(cols.drop_last()) + match cols.last() {
            Some(w) => w as int,
            None => 0int,
        }
    }
}

/// Count of the auto (absent) columns.
pub open spec fn unk_of(cols: Seq<Option<usize>>) -> int
    decreases cols.len(),
{
    if cols.len() == 0 {
        0
    } else {
        unk_of(cols.drop_last()) + match cols.last() {
            Some(_) => 0int,
            None => 1int,
        }
    }
}

/// Total horizontal padding of a fixed row with `n` columns:
/// `(n + 1) * 2 * half_padding`.
pub open spec fn fixed_pads(n: int, hp: int) -> int {
    (n + 1) * 2 * hp
}

/// What a fixed row needs at least: padding, known widths, and one unit for
/// every auto column.
pub open spec fn fixed_need(cols: Seq<Option<usize>>, hp: int) -> int {
    fixed_pads(cols.len() as int, hp) + asked_of(cols) + unk_of(cols)
}

/// Width left to distribute over the auto columns.
pub open spec fn fixed_leftover(width: int, hp: int, cols: Seq<Option<usize>>) -> int {
    width - fixed_pads(cols.len() as int, hp) - asked_of(cols)
}

/// Whether a fixed row compiles against a table of width `width`: the
/// leftover must give every auto column at least one unit, and when there is
/// no auto column the declared widths plus padding must match exactly.
pub open spec fn fixed_fits(width: int, hp: int, cols: Seq<Option<usize>>) -> bool {
    if unk_of(cols) == 0 {
        width == fixed_pads(cols.len() as int, hp) + asked_of(cols)
    } else {
        width >= fixed_need(cols, hp)
    }
}

/// The resolved width of column `i`: its declared width, or an even share of
/// the leftover, the first `leftover % unk` auto columns taking one extra
/// unit.
pub open spec fn resolved_w(width: int, hp: int, cols: Seq<Option<usize>>, i: int) -> int {
    match cols[i] {
        Some(w) => w as int,
        None => {
            let u = unk_of(cols);
            let lo = fixed_leftover(width, hp, cols);
            lo / u + if unk_of(cols.take(i)) < lo % u {
                1int
            } else {
                0int
            }
        },
    }
}

/// Sum of the first `k` resolved column widths.
pub open spec fn resolved_sum(width: int, hp: int, cols: Seq<Option<usize>>, k: int) -> int
    decreases k,
{
    if k <= 0 {
        0
    } else {
        resolved_sum(width, hp, cols, k - 1) + resolved_w(width, hp, cols, k - 1)
    }
}

proof fn lemma_take_step(cols: Seq<Option<usize>>, k: int)
    requires
        0 < k <= cols.len(),
    ensures
        cols.take(k).drop_last() == cols.take(k - 1),
        cols.take(k).last() == cols[k - 1],
        asked_of(cols.take(k)) == asked_of(cols.take(k - 1)) + match cols[k - 1] {
            Some(w) => w as int,
            None => 0int,
        },
        unk_of(cols.take(k)) == unk_of(cols.take(k - 1)) + match cols[k - 1] {
            Some(_) => 0int,
            None => 1int,
        },
{
    assert(cols.take(k).drop_last() =~= cols.take(k - 1));
}

proof fn lemma_take_all(cols: Seq<Option<usize>>)
    ensures
        cols.take(cols.len() as int) == cols,
{
    assert(cols.take(cols.len() as int) =~= cols);
}

proof fn lemma_prefix_nonneg(cols: Seq<Option<usize>>)
    ensures
        asked_of(cols) >= 0,
        unk_of(cols) >= 0,
    decreases cols.len(),
{
    if cols.len() > 0 {
        lemma_prefix_nonneg(cols.drop_last());
    }
}

proof fn lemma_prefix_le(cols: Seq<Option<usize>>, k: int)
    requires
        0 <= k <= cols.len(),
    ensures
        asked_of(cols.take(k)) <= asked_of(cols),
        0 <= unk_of(cols.take(k)) <= unk_of(cols),
    decreases cols.len() - k,
{
    if k == cols.len() {
        lemma_take_all(cols);
        lemma_prefix_nonneg(cols.take(k));
    } else {
        lemma_take_step(cols, k + 1);
        lemma_prefix_le(cols, k + 1);
        lemma_prefix_nonneg(cols.take(k));
    }
}

/// Closed form of the partial resolved sums: the declared widths seen so far,
/// plus the even share for every auto column seen, plus one extra unit for
/// each of the first `leftover % unk` auto columns seen.
proof fn lemma_resolved_sum(width: int, hp: int, cols: Seq<Option<usize>>, k: int)
    requires
        0 <= k <= cols.len(),
        unk_of(cols) > 0,
    ensures
        resolved_sum(width, hp, cols, k) == asked_of(cols.take(k)) + (fixed_leftover(
            width,
            hp,
            cols,
        ) / unk_of(cols)) * unk_of(cols.take(k)) + (if unk_of(cols.take(k)) <= fixed_leftover(
            width,
            hp,
            cols,
        ) % unk_of(cols) {
            unk_of(cols.take(k))
        } else {
            fixed_leftover(width, hp, cols) % unk_of(cols)
        }),
    decreases k,
{
    let u = unk_of(cols);
    let lo = fixed_leftover(width, hp, cols);
    let uw = lo / u;
    let rw = lo % u;
    if k == 0 {
        assert(cols.take(0) =~= Seq::<Option<usize>>::empty());
        assert(uw * 0 == 0) by (nonlinear_arith);
    } else {
        lemma_resolved_sum(width, hp, cols, k - 1);
        lemma_take_step(cols, k);
        lemma_prefix_le(cols, k - 1);
        match cols[k - 1] {
            Some(_) => {},
            None => {
                let a = unk_of(cols.take(k - 1));
                assert(uw * (a + 1) == uw * a + uw) by (nonlinear_arith);
            },
        }
    }
}

/// With at least one auto column, the fully resolved widths absorb the whole
/// leftover: their sum plus the declared widths equals `width - pads`.
proof fn lemma_resolved_total(width: int, hp: int, cols: Seq<Option<usize>>)
    requires
        unk_of(cols) > 0,
        fixed_leftover(width, hp, cols) >= unk_of(cols),
    ensures
        resolved_sum(width, hp, cols, cols.len() as int) == width - fixed_pads(
            cols.len() as int,
            hp,
        ),
{
    let u = unk_of(cols);
    let lo = fixed_leftover(width, hp, cols);
    lemma_resolved_sum(width, hp, cols, cols.len() as int);
    lemma_take_all(cols);
    lemma_fundamental_div_mod(lo, u);
    assert(0 <= lo % u < u) by (nonlinear_arith)
        requires
            u > 0,
    ;
    assert(u * (lo / u) == (lo / u) * u) by (nonlinear_arith);
}

proof fn lemma_resolved_sum_bound(width: int, hp: int, cols: Seq<Option<usize>>, k: int)
    requires
        0 <= k <= cols.len(),
        unk_of(cols) > 0,
        fixed_leftover(width, hp, cols) >= unk_of(cols),
    ensures
        0 <= resolved_sum(width, hp, cols, k) <= asked_of(cols) + fixed_leftover(width, hp, cols),
{
    let u = unk_of(cols);
    let lo = fixed_leftover(width, hp, cols);
    let uw = lo / u;
    let rw = lo % u;
    lemma_resolved_sum(width, hp, cols, k);
    lemma_prefix_le(cols, k);
    lemma_prefix_nonneg(cols);
    lemma_prefix_nonneg(cols.take(k));
    lemma_fundamental_div_mod(lo, u);
    assert(0 <= rw < u && uw >= 1) by (nonlinear_arith)
        requires
            u > 0,
            lo >= u,
            uw == lo / u,
            rw == lo % u,
    ;
    let a = unk_of(cols.take(k));
    assert(0 <= uw * a <= uw * u) by (nonlinear_arith)
        requires
            uw >= 0,
            0 <= a <= u,
    ;
    assert(asked_of(cols.take(k)) >= 0 && asked_of(cols.take(k)) <= asked_of(cols));
    assert(uw * u + rw == lo);
}

// ------------------------------------------------------------------
// The soft layout tree
// ------------------------------------------------------------------

/// One fixed-width sub-column of a soft row, with its resolved paddings.
#[derive(Debug)]
pub(crate) struct RealFixed {
    pub(crate) padding_left: usize,
    pub(crate) padding_right: usize,
    pub(crate) width: usize,
}

/// A group of fixed sub-columns flanking the flexible column: a lone one, or
/// several rendered inside a shared group block.
#[derive(Debug)]
pub(crate) enum DivFixed {
    One(RealFixed),
    Many(Vec<RealFixed>),
}

/// Where the fixed group stands relative to the flexible column.
#[derive(Debug)]
pub(crate) enum Fixed {
    Empty,
    Left(DivFixed),
    Right(DivFixed),
}

/// The flexible column itself: paddings, remaining minimum width, and the
/// margin reserving space for a fixed group beside it.
#[derive(Debug)]
pub(crate) struct DivSoftReal {
    pub(crate) padding_left: usize,
    pub(crate) padding_right: usize,
    pub(crate) min_width: usize,
    pub(crate) margin: Option<usize>,
}

/// The soft side of a row plan: either the flexible column alone, or a nested
/// band holding a fixed group and the flexible column (used when fixed groups
/// stand on both sides).
#[derive(Debug)]
pub(crate) enum DivSoft {
    Phantom { min_width: usize, fixed: Fixed, soft: DivSoftReal, margin: Option<usize> },
    Real(DivSoftReal),
}

/// One whole soft row plan: a fixed group (possibly absent) and the soft side.
#[derive(Debug)]
pub(crate) struct Phantom {
    pub(crate) fixed: Fixed,
    pub(crate) soft: DivSoft,
}

/// What one tree node emits: CSS text, the classes sharing the row's vertical
/// padding, markup fragments, and the caller-value index of each insertion
/// point in emission order.
pub(crate) struct Emit {
    pub(crate) styles: String,
    pub(crate) pads: Vec<String>,
    pub(crate) divs: Vec<String>,
    pub(crate) args: Vec<usize>,
}

pub(crate) open spec fn rf_size(f: RealFixed) -> int {
    f.padding_left + f.padding_right + f.width
}

pub(crate) open spec fn many_size(v: Seq<RealFixed>, k: int) -> int
    decreases k,
{
    if k <= 0 {
        0
    } else {
        many_size(v, k - 1) + rf_size(v[k - 1])
    }
}

pub(crate) open spec fn df_size(d: DivFixed) -> int {
    match d {
        DivFixed::One(f) => rf_size(f),
        DivFixed::Many(v) => many_size(v@, v@.len() as int),
    }
}

pub(crate) open spec fn df_count(d: DivFixed) -> int {
    match d {
        DivFixed::One(_) => 1,
        DivFixed::Many(v) => v@.len() as int,
    }
}

pub(crate) open spec fn fixed_size(f: Fixed) -> int {
    match f {
        Fixed::Empty => 0,
        Fixed::Left(d) => df_size(d),
        Fixed::Right(d) => df_size(d),
    }
}

pub(crate) open spec fn fixed_count(f: Fixed) -> int {
    match f {
        Fixed::Empty => 0,
        Fixed::Left(d) => df_count(d),
        Fixed::Right(d) => df_count(d),
    }
}

pub(crate) open spec fn ds_count(s: DivSoft) -> int {
    match s {
        DivSoft::Phantom { fixed, .. } => fixed_count(fixed) + 1,
        DivSoft::Real(_) => 1,
    }
}

pub(crate) open spec fn ph_count(p: Phantom) -> int {
    fixed_count(p.fixed) + ds_count(p.soft)
}

proof fn lemma_many_size_nonneg(v: Seq<RealFixed>, k: int)
    requires
        0 <= k <= v.len(),
    ensures
        many_size(v, k) >= 0,
    decreases k,
{
    if k > 0 {
        lemma_many_size_nonneg(v, k - 1);
    }
}

proof fn lemma_many_size_mono(v: Seq<RealFixed>, j: int, k: int)
    requires
        0 <= j <= k <= v.len(),
    ensures
        many_size(v, j) <= many_size(v, k),
    decreases k - j,
{
    if j < k {
        lemma_many_size_mono(v, j, k - 1);
    }
}

// ------------------------------------------------------------------
// Text model of the soft layout tree
// ------------------------------------------------------------------

pub open spec fn open_div_seq(cls: Seq<char>) -> Seq<char> {
    "<div class='"@ + cls + "'>"@
}

pub open spec fn close_div_seq() -> Seq<char> {
    "</div>\n"@
}

/// The margin printed for a node: the reserved width, or zero.
pub open spec fn margin_val(m: Option<usize>) -> int {
    match m {
        Some(x) => x as int,
        None => 0,
    }
}

/// Style of a lone fixed sub-column, from its resolved numbers.
pub open spec fn one_style_seq(cls: Seq<char>, pl: int, pr: int, w: int, float: Seq<char>) -> Seq<
    char,
> {
    "."@ + cls + " { padding-left: "@ + decimal_seq(pl as nat) + "px; padding-right: "@
        + decimal_seq(pr as nat) + "px; width: "@ + decimal_seq(w as nat) + "px; float: "@ + float
        + "; overflow: hidden; }\n"@
}

/// Style of a lone fixed sub-column.
pub(crate) open spec fn rf_style_seq(cls: Seq<char>, f: RealFixed, float: Seq<char>) -> Seq<char> {
    one_style_seq(cls, f.padding_left as int, f.padding_right as int, f.width as int, float)
}

/// Class of one sub-column inside a fixed group: `<group>_c<i>`.
pub open spec fn cell_class_seq(cls: Seq<char>, i: int) -> Seq<char> {
    cls + "_c"@ + decimal_seq(i as nat)
}

/// Style of one sub-column inside a fixed group (always floated left within
/// the group), from its resolved numbers.
pub open spec fn cell_rule_seq(cls: Seq<char>, pl: int, pr: int, w: int) -> Seq<char> {
    "."@ + cls + " { padding-left: "@ + decimal_seq(pl as nat) + "px; padding-right: "@
        + decimal_seq(pr as nat) + "px; width: "@ + decimal_seq(w as nat)
        + "px; overflow: hidden; float: left; }\n"@
}

/// Style of one sub-column inside a fixed group.
pub(crate) open spec fn cell_style_seq(cls: Seq<char>, f: RealFixed) -> Seq<char> {
    cell_rule_seq(cls, f.padding_left as int, f.padding_right as int, f.width as int)
}

/// Styles of the first `k` sub-columns of a fixed group.
pub(crate) open spec fn many_styles_seq(cls: Seq<char>, v: Seq<RealFixed>, k: int) -> Seq<char>
    decreases k,
{
    if k <= 0 {
        Seq::empty()
    } else {
        many_styles_seq(cls, v, k - 1) + cell_style_seq(cell_class_seq(cls, k - 1), v[k - 1])
    }
}

/// Style of the shared block holding a fixed group of several sub-columns.
pub open spec fn group_style_seq(cls: Seq<char>, size: int, float: Seq<char>) -> Seq<char> {
    "."@ + cls + " { width: "@ + decimal_seq(size as nat) + "px; float: "@ + float
        + "; overflow: hidden; }\n"@
}

pub(crate) open spec fn df_styles_seq(d: DivFixed, cls: Seq<char>, float: Seq<char>) -> Seq<char> {
    match d {
        DivFixed::One(f) => rf_style_seq(cls, f, float),
        DivFixed::Many(v) => many_styles_seq(cls, v@, v@.len() as int) + group_style_seq(
            cls,
            many_size(v@, v@.len() as int),
            float,
        ),
    }
}

/// Style of the flexible column, from its resolved numbers.
pub open spec fn flex_style_seq(cls: Seq<char>, pl: int, pr: int, mwv: int, float: Seq<char>, m:
    int) -> Seq<char> {
    "."@ + cls + " { padding-left: "@ + decimal_seq(pl as nat) + "px; padding-right: "@
        + decimal_seq(pr as nat) + "px; min-width: "@ + decimal_seq(mwv as nat) + "px; margin-"@
        + float + ": "@ + decimal_seq(m as nat) + "px; overflow: hidden; }\n"@
}

/// Style of the flexible column.
pub(crate) open spec fn dsr_style_seq(cls: Seq<char>, f: DivSoftReal, float: Seq<char>) -> Seq<char> {
    flex_style_seq(
        cls,
        f.padding_left as int,
        f.padding_right as int,
        f.min_width as int,
        float,
        margin_val(f.margin),
    )
}

/// Style of the nested band holding a fixed group and the flexible column.
pub open spec fn band_style_seq(cls: Seq<char>, mw: int, float: Seq<char>, m: int) -> Seq<char> {
    "."@ + cls + " { min-width: "@ + decimal_seq(mw as nat) + "px; margin-"@ + float + ": "@
        + decimal_seq(m as nat) + "px; overflow: hidden; }\n"@
}

/// Wraps a fragment run in one more `div`: the opening tag is glued onto the
/// first fragment, the closing tag onto the last (nothing for an empty run).
pub open spec fn wrap_divs(cls: Seq<char>, d: Seq<Seq<char>>) -> Seq<Seq<char>> {
    if d.len() == 0 {
        d
    } else {
        let d1 = d.update(0, "<div class='"@ + cls + "'>\n"@ + d[0]);
        d1.update(d1.len() - 1, d1[d1.len() - 1] + "</div>\n"@)
    }
}

/// Joins two fragment runs: the boundary fragments merge into one, so that an
/// insertion point never falls between two runs.
pub open spec fn join_divs(l: Seq<Seq<char>>, r: Seq<Seq<char>>) -> Seq<Seq<char>> {
    if l.len() == 0 {
        r
    } else if r.len() == 0 {
        l
    } else {
        l.drop_last() + seq![l.last() + r[0]] + r.skip(1)
    }
}

/// The fragments of a fixed group of `n` sub-columns, before wrapping.
pub open spec fn cells_divs_seq(cls: Seq<char>, n: int) -> Seq<Seq<char>> {
    Seq::new(n as nat, |i: int| if i == 0 {
        open_div_seq(cell_class_seq(cls, i))
    } else {
        "</div>\n<div class='"@ + cell_class_seq(cls, i) + "'>"@
    }) + seq![close_div_seq()]
}

pub(crate) open spec fn df_divs_seq(d: DivFixed, cls: Seq<char>) -> Seq<Seq<char>> {
    match d {
        DivFixed::One(_) => seq![open_div_seq(cls), close_div_seq()],
        DivFixed::Many(v) => wrap_divs(cls, cells_divs_seq(cls, v@.len() as int)),
    }
}

pub(crate) open spec fn df_pads_seq(d: DivFixed, cls: Seq<char>) -> Seq<Seq<char>> {
    match d {
        DivFixed::One(_) => seq![cls],
        DivFixed::Many(v) => Seq::new(v@.len(), |i: int| cell_class_seq(cls, i)),
    }
}

pub open spec fn dsr_divs_seq(cls: Seq<char>) -> Seq<Seq<char>> {
    seq![open_div_seq(cls), close_div_seq()]
}

pub(crate) open spec fn ds_styles_seq(s: DivSoft, cls: Seq<char>, float: Seq<char>) -> Seq<char> {
    match s {
        DivSoft::Real(r) => dsr_style_seq(cls, r, float),
        DivSoft::Phantom { min_width, fixed, soft, margin } => match fixed {
            Fixed::Empty => dsr_style_seq(cls, soft, float),
            Fixed::Left(l) => df_styles_seq(l, cls + "_l"@, "left"@) + dsr_style_seq(
                cls + "_r"@,
                soft,
                "left"@,
            ) + band_style_seq(cls, min_width as int, float, margin_val(margin)),
            Fixed::Right(r) => df_styles_seq(r, cls + "_r"@, "right"@) + dsr_style_seq(
                cls + "_l"@,
                soft,
                "right"@,
            ) + band_style_seq(cls, min_width as int, float, margin_val(margin)),
        },
    }
}

pub(crate) open spec fn ds_divs_seq(s: DivSoft, cls: Seq<char>) -> Seq<Seq<char>> {
    match s {
        DivSoft::Real(_) => dsr_divs_seq(cls),
        DivSoft::Phantom { fixed, .. } => match fixed {
            Fixed::Empty => dsr_divs_seq(cls),
            Fixed::Left(l) => wrap_divs(
                cls,
                wrap_divs("row"@, join_divs(df_divs_seq(l, cls + "_l"@), dsr_divs_seq(cls + "_r"@))),
            ),
            Fixed::Right(r) => wrap_divs(
                cls,
                wrap_divs("row"@, join_divs(df_divs_seq(r, cls + "_r"@), dsr_divs_seq(cls + "_l"@))),
            ),
        },
    }
}

pub(crate) open spec fn ds_pads_seq(s: DivSoft, cls: Seq<char>) -> Seq<Seq<char>> {
    match s {
        DivSoft::Real(_) => seq![cls],
        DivSoft::Phantom { fixed, .. } => match fixed {
            Fixed::Empty => seq![cls],
            Fixed::Left(l) => df_pads_seq(l, cls + "_l"@) + seq![cls + "_r"@],
            Fixed::Right(r) => df_pads_seq(r, cls + "_r"@) + seq![cls + "_l"@],
        },
    }
}

pub open spec fn range_args(offset: int, len: int) -> Seq<int> {
    Seq::new(len as nat, |i: int| offset + i)
}

/// Whether an executable argument table spells out the given index sequence.
pub open spec fn args_match(a: Seq<usize>, s: Seq<int>) -> bool {
    a.len() == s.len() && forall|t: int| 0 <= t < a.len() ==> (#[trigger] a[t]) as int == s[t]
}

pub(crate) open spec fn ds_args_seq(s: DivSoft, offset: int, len: int) -> Seq<int> {
    match s {
        DivSoft::Real(_) => range_args(offset, len),
        DivSoft::Phantom { fixed, .. } => match fixed {
            Fixed::Empty => range_args(offset, len),
            Fixed::Left(l) => range_args(offset, df_count(l)) + range_args(offset + df_count(l), 1),
            Fixed::Right(r) => range_args(offset + 1, df_count(r)) + range_args(offset, 1),
        },
    }
}

pub(crate) open spec fn ph_styles_seq(p: Phantom, cls: Seq<char>) -> Seq<char> {
    match p.fixed {
        Fixed::Empty => ds_styles_seq(p.soft, cls, "left"@),
        Fixed::Left(l) => df_styles_seq(l, cls + "_l"@, "left"@) + ds_styles_seq(
            p.soft,
            cls + "_r"@,
            "left"@,
        ),
        Fixed::Right(r) => df_styles_seq(r, cls + "_r"@, "right"@) + ds_styles_seq(
            p.soft,
            cls + "_l"@,
            "right"@,
        ),
    }
}

pub(crate) open spec fn ph_divs_seq(p: Phantom, cls: Seq<char>) -> Seq<Seq<char>> {
    match p.fixed {
        Fixed::Empty => ds_divs_seq(p.soft, cls),
        Fixed::Left(l) => join_divs(df_divs_seq(l, cls + "_l"@), ds_divs_seq(p.soft, cls + "_r"@)),
        Fixed::Right(r) => join_divs(df_divs_seq(r, cls + "_r"@), ds_divs_seq(p.soft, cls + "_l"@)),
    }
}

pub(crate) open spec fn ph_pads_seq(p: Phantom, cls: Seq<char>) -> Seq<Seq<char>> {
    match p.fixed {
        Fixed::Empty => ds_pads_seq(p.soft, cls),
        Fixed::Left(l) => df_pads_seq(l, cls + "_l"@) + ds_pads_seq(p.soft, cls + "_r"@),
        Fixed::Right(r) => df_pads_seq(r, cls + "_r"@) + ds_pads_seq(p.soft, cls + "_l"@),
    }
}

pub(crate) open spec fn ph_args_seq(p: Phantom, offset: int, len: int) -> Seq<int> {
    match p.fixed {
        Fixed::Empty => ds_args_seq(p.soft, offset, len),
        Fixed::Left(l) => range_args(offset, df_count(l)) + ds_args_seq(
            p.soft,
            offset + df_count(l),
            ds_count(p.soft),
        ),
        Fixed::Right(r) => range_args(offset + ds_count(p.soft), df_count(r)) + ds_args_seq(
            p.soft,
            offset,
            ds_count(p.soft),
        ),
    }
}

/// With no auto column every resolved width is the declared one.
proof fn lemma_resolved_sum_all_asked(width: int, hp: int, cols: Seq<Option<usize>>, k: int)
    requires
        0 <= k <= cols.len(),
        unk_of(cols) == 0,
    ensures
        resolved_sum(width, hp, cols, k) == asked_of(cols.take(k)),
    decreases k,
{
    if k == 0 {
        assert(cols.take(0) =~= Seq::<Option<usize>>::empty());
    } else {
        lemma_resolved_sum_all_asked(width, hp, cols, k - 1);
        lemma_take_step(cols, k);
        lemma_prefix_le(cols, k);
        lemma_prefix_nonneg(cols.take(k));
        lemma_prefix_nonneg(cols.take(k - 1));
        match cols[k - 1] {
            Some(_) => {},
            None => {
                assert(unk_of(cols.take(k)) >= 1);
            },
        }
    }
}

// ------------------------------------------------------------------
// Text model of fixed rows
// ------------------------------------------------------------------

/// Class name of one fixed-row column: `uid_r<row>_c<col>`.
pub open spec fn col_class_seq(uid: Seq<char>, row: nat, col: nat) -> Seq<char> {
    uid + "_r"@ + decimal_seq(row) + "_c"@ + decimal_seq(col)
}

/// All the column class names of one fixed row.
pub open spec fn fixed_classes(uid: Seq<char>, row: nat, n: nat) -> Seq<Seq<char>> {
    Seq::new(n, |i: int| col_class_seq(uid, row, i as nat))
}

/// The explicit width rule of one column.
pub open spec fn width_rule(cls: Seq<char>, w: int) -> Seq<char> {
    "."@ + cls + " { width: "@ + decimal_seq(w as nat) + "px; }\n"@
}

/// The width rules of the first `k` columns, in order.
pub open spec fn width_rules(
    uid: Seq<char>,
    row: nat,
    width: int,
    hp: int,
    cols: Seq<Option<usize>>,
    k: int,
) -> Seq<char>
    decreases k,
{
    if k <= 0 {
        Seq::empty()
    } else {
        width_rules(uid, row, width, hp, cols, k - 1) + width_rule(
            col_class_seq(uid, row, (k - 1) as nat),
            resolved_w(width, hp, cols, k - 1),
        )
    }
}

/// The whole CSS text of one fixed row: the shared padding-and-float rule over
/// every column, the interior padding overrides, then the per-column widths.
pub open spec fn fixed_styles_seq(
    uid: Seq<char>,
    row: nat,
    width: int,
    hp: int,
    cols: Seq<Option<usize>>,
) -> Seq<char> {
    let n = cols.len() as int;
    let clss = fixed_classes(uid, row, n as nat);
    let head = if n > 0 {
        n - 1
    } else {
        0
    };
    let tail = if n > 0 {
        1int
    } else {
        0int
    };
    selector_seq(clss) + "{ padding: "@ + decimal_seq((2 * hp) as nat) + "px; float: left; }\n"@
        + selector_seq(clss.subrange(0, head)) + "{ padding-right: "@ + decimal_seq(hp as nat)
        + "px; }\n"@ + selector_seq(clss.subrange(tail, n)) + "{ padding-left: "@ + decimal_seq(
        hp as nat,
    ) + "px; }\n"@ + width_rules(uid, row, width, hp, cols, n)
}

/// The markup fragments of one fixed row, in logical column order: an opening
/// `div` per column, each later one first closing its predecessor, and a
/// final closing fragment.
pub open spec fn fixed_divs_seq(uid: Seq<char>, row: nat, n: nat) -> Seq<Seq<char>> {
    Seq::new(n as nat, |i: int| if i == 0 {
        "<div class='"@ + col_class_seq(uid, row, i as nat) + "'>"@
    } else {
        "</div>\n<div class='"@ + col_class_seq(uid, row, i as nat) + "'>"@
    }) + seq!["</div>\n"@]
}

// ------------------------------------------------------------------
// The fixed-row compiler
// ------------------------------------------------------------------

/// Compiles one fixed row against `table` (of declared width `width`):
/// resolves every column width, re-checks the total as a defensive assertion,
/// and appends the compiled row. Fails with `FixedRowTooLong` when the width
/// cannot hold the columns.
#[verifier::loop_isolation(false)]
#[verifier::rlimit(100)]
pub(crate) fn create_fixed(table: &mut TableConf, width: usize, columns: &[Option<usize>]) -> (r:
    Result<RowRef, TableError>)
    requires
        columns@.len() < usize::MAX,
        fixed_need(columns@, old(table).half_padding as int) <= usize::MAX,
    ensures
        final(table).index == old(table).index,
        final(table).uid == old(table).uid,
        final(table).tp == old(table).tp,
        final(table).half_padding == old(table).half_padding,
        r is Ok <==> fixed_fits(width as int, old(table).half_padding as int, columns@),
        r matches Ok(rr) ==> {
            &&& rr.table_index() == old(table).index
            &&& rr.row_index() == old(table).rows@.len()
            &&& final(table).rows@.len() == old(table).rows@.len() + 1
            &&& final(table).rows@.subrange(0, old(table).rows@.len() as int) == old(table).rows@
            &&& final(table).rows@.last().styles@ == fixed_styles_seq(
                old(table).uid@,
                old(table).rows@.len(),
                width as int,
                old(table).half_padding as int,
                columns@,
            )
            &&& views_of(final(table).rows@.last().divs@) == fixed_divs_seq(
                old(table).uid@,
                old(table).rows@.len(),
                columns@.len(),
            )
            &&& final(table).rows@.last().args is None
        },
        r matches Err(e) ==> final(table).rows@ == old(table).rows@ && (e matches
        TableError::FixedRowTooLong { table: t, width: w, pads: p, asked: a, unknown: u } && t@
            == old(table).uid@ && w == width && p == fixed_pads(
            columns@.len() as int,
            old(table).half_padding as int,
        ) && a == asked_of(columns@) && u == unk_of(columns@)),
{
    let ghost ghp = old(table).half_padding as int;
    let ghost gcols = columns@;
    let cnt = columns.len();
    let hp = table.half_padding;
    proof {
        lemma_prefix_nonneg(gcols);
        assert(2 * ghp * ((cnt as int) + 1) == ((cnt as int) + 1) * 2 * ghp) by (nonlinear_arith);
        assert(2 * ghp <= 2 * ghp * ((cnt as int) + 1)) by (nonlinear_arith)
            requires
                ghp >= 0,
                cnt >= 0,
        ;
    }
    let pads = 2 * hp * (cnt + 1);
    let mut unk: usize = 0;
    let mut asked: usize = 0;
    let mut i: usize = 0;
    while i < cnt
        invariant
            i <= cnt,
            cnt == gcols.len(),
            cnt < usize::MAX,
            asked == asked_of(gcols.take(i as int)),
            unk == unk_of(gcols.take(i as int)),
            fixed_need(gcols, ghp) <= usize::MAX,
            fixed_pads(cnt as int, ghp) >= 0,
        decreases cnt - i,
    {
        proof {
            lemma_take_step(gcols, i + 1);
            lemma_prefix_le(gcols, i + 1);
            lemma_prefix_nonneg(gcols);
        }
        match columns[i] {
            Some(w) => {
                asked = asked + w;
            },
            None => {
                unk = unk + 1;
            },
        }
        i = i + 1;
    }
    proof {
        lemma_take_all(gcols);
        lemma_prefix_nonneg(gcols);
    }
    if !(width >= pads + asked && width - pads - asked >= unk) {
        return Err(
            TableError::FixedRowTooLong {
                table: table.uid.clone(),
                width,
                pads,
                asked,
                unknown: unk,
            },
        );
    }
    let row_idx = table.rows.len();
    let nw = width - pads - asked;
    let uw = if unk == 0 {
        0
    } else {
        nw / unk
    };
    let rw = if unk == 0 {
        0
    } else {
        nw % unk
    };
    proof {
        if unk > 0 {
            lemma_fundamental_div_mod(nw as int, unk as int);
            assert(0 <= (nw as int) % (unk as int) < unk as int && 0 <= (nw as int) / (unk as int)
                <= nw as int) by (nonlinear_arith)
                requires
                    unk as int > 0,
                    nw as int >= unk as int,
            ;
        }
    }

    let ghost grow: nat = row_idx as nat;
    let mut ctrl: usize = 0;
    let mut u_idx: usize = 0;
    let mut col_classes: Vec<String> = Vec::new();
    let mut st = String::new();
    let mut j: usize = 0;
    while j < cnt
        invariant
            j <= cnt,
            cnt == gcols.len(),
            cnt < usize::MAX,
            fixed_need(gcols, ghp) <= usize::MAX,
            width >= fixed_pads(cnt as int, ghp) + asked_of(gcols),
            fixed_pads(cnt as int, ghp) >= 0,
            nw == fixed_leftover(width as int, ghp, gcols),
            nw >= unk,
            unk == unk_of(gcols),
            unk > 0 ==> uw as int == nw as int / unk as int && rw as int == nw as int % unk as int,
            unk == 0 ==> uw == 0 && rw == 0,
            u_idx == unk_of(gcols.take(j as int)),
            ctrl == resolved_sum(width as int, ghp, gcols, j as int),
            col_classes@.len() == j,
            forall|t: int|
                0 <= t < j ==> (#[trigger] col_classes@[t])@ == col_class_seq(
                    old(table).uid@,
                    grow,
                    t as nat,
                ),
            st@ == width_rules(old(table).uid@, grow, width as int, ghp, gcols, j as int),
            grow == old(table).rows@.len(),
        decreases cnt - j,
    {
        proof {
            lemma_take_step(gcols, j + 1);
            lemma_prefix_le(gcols, j + 1);
            lemma_prefix_le(gcols, j as int);
            lemma_prefix_nonneg(gcols);
            if unk > 0 {
                lemma_resolved_sum_bound(width as int, ghp, gcols, j + 1);
                lemma_resolved_sum_bound(width as int, ghp, gcols, j as int);
            } else {
                lemma_resolved_sum_all_asked(width as int, ghp, gcols, j + 1);
                lemma_resolved_sum_all_asked(width as int, ghp, gcols, j as int);
            }
        }
        let w: usize = match columns[j] {
            Some(w) => w,
            None => {
                proof {
                    assert(unk > 0);
                    if u_idx < rw {
                        assert((nw as int / unk as int) + 1 <= usize::MAX as int)
                            by (nonlinear_arith)
                            requires
                                unk as int >= 2,
                                nw as int <= usize::MAX as int,
                                nw as int >= unk as int,
                        ;
                    }
                }
                let w: usize = if u_idx < rw {
                    uw + 1
                } else {
                    uw
                };
                u_idx = u_idx + 1;
                w
            },
        };
        proof {
            assert(resolved_w(width as int, ghp, gcols, j as int) == w as int);
            assert(ctrl as int + w as int == resolved_sum(width as int, ghp, gcols, j + 1));
        }
        ctrl = ctrl + w;
        let mut col_class = table.uid.clone();
        col_class.append("_r");
        let rs = decimal_str(row_idx);
        col_class.append(rs.as_str());
        col_class.append("_c");
        let cs = decimal_str(j);
        col_class.append(cs.as_str());
        st.append(".");
        st.append(col_class.as_str());
        st.append(" { width: ");
        let ws = decimal_str(w);
        st.append(ws.as_str());
        st.append("px; }\n");
        proof {
            assert(col_class@ == col_class_seq(old(table).uid@, grow, j as nat));
        }
        col_classes.push(col_class);
        j = j + 1;
    }
    proof {
        lemma_take_all(gcols);
        if unk > 0 {
            lemma_resolved_total(width as int, ghp, gcols);
        } else {
            lemma_resolved_sum_all_asked(width as int, ghp, gcols, gcols.len() as int);
        }
    }
    if ctrl + pads != width {
        return Err(
            TableError::FixedRowTooLong {
                table: table.uid.clone(),
                width,
                pads,
                asked,
                unknown: unk,
            },
        );
    }

    let ghost clss = fixed_classes(old(table).uid@, grow, cnt as nat);
    let ghost head: int = if cnt > 0 {
        cnt as int - 1
    } else {
        0int
    };
    let ghost tail: int = if cnt > 0 {
        1int
    } else {
        0int
    };
    let mut styles = String::new();
    append_selector(&mut styles, &col_classes, 0, cnt);
    proof {
        assert(views_of(col_classes@.subrange(0, cnt as int)) =~= clss);
        assert(styles@ =~= selector_seq(clss));
    }
    styles.append("{ padding: ");
    let ps = decimal_str(2 * hp);
    styles.append(ps.as_str());
    styles.append("px; float: left; }\n");
    append_selector(&mut styles, &col_classes, 0, if cnt > 0 {
        cnt - 1
    } else {
        0
    });
    proof {
        assert(views_of(col_classes@.subrange(0, head)) =~= clss.subrange(0, head));
    }
    styles.append("{ padding-right: ");
    let hs = decimal_str(hp);
    styles.append(hs.as_str());
    styles.append("px; }\n");
    append_selector(&mut styles, &col_classes, if cnt > 0 {
        1
    } else {
        0
    }, cnt);
    proof {
        assert(views_of(col_classes@.subrange(tail, cnt as int)) =~= clss.subrange(
            tail,
            cnt as int,
        ));
    }
    styles.append("{ padding-left: ");
    let hs2 = decimal_str(hp);
    styles.append(hs2.as_str());
    styles.append("px; }\n");
    styles.append(st.as_str());
    proof {
        assert(styles@ == fixed_styles_seq(old(table).uid@, grow, width as int, ghp, gcols));
    }

    let mut divs: Vec<String> = Vec::new();
    let mut k: usize = 0;
    while k < cnt
        invariant
            k <= cnt,
            divs@.len() == k,
            forall|t: int|
                0 <= t < k ==> (#[trigger] divs@[t])@ == fixed_divs_seq(
                    old(table).uid@,
                    grow,
                    cnt as nat,
                )[t],
        decreases cnt - k,
    {
        let mut d = if k == 0 {
            String::from_str("<div class='")
        } else {
            String::from_str("</div>\n<div class='")
        };
        d.append(col_classes[k].as_str());
        d.append("'>");
        proof {
            assert(d@ == fixed_divs_seq(old(table).uid@, grow, cnt as nat)[k as int]);
        }
        divs.push(d);
        k = k + 1;
    }
    divs.push(String::from_str("</div>\n"));
    proof {
        assert(views_of(divs@) =~= fixed_divs_seq(old(table).uid@, grow, cnt as nat));
    }
    let res = RowRef { table_idx: table.index, row_idx };
    let new_row = Row { styles, divs, args: None };
    table.rows.push(new_row);
    proof {
        assert(final(table).rows@.subrange(0, old(table).rows@.len() as int) =~= old(table).rows@);
    }
    Ok(res)
}

// ------------------------------------------------------------------
// Emitting the soft layout tree
// ------------------------------------------------------------------

/// The insertion-point argument run `offset, offset + 1, ...` of length `len`.
fn make_args(offset: usize, len: usize) -> (r: Vec<usize>)
    requires
        offset + len <= usize::MAX,
    ensures
        args_match(r@, range_args(offset as int, len as int)),
{
    let mut r: Vec<usize> = Vec::new();
    let mut i: usize = 0;
    while i < len
        invariant
            i <= len,
            offset + len <= usize::MAX,
            r@.len() == i,
            forall|t: int| 0 <= t < i ==> (#[trigger] r@[t]) as int == offset + t,
        decreases len - i,
    {
        r.push(offset + i);
        i = i + 1;
    }
    r
}

proof fn lemma_join_divs_len(l: Seq<Seq<char>>, r: Seq<Seq<char>>)
    requires
        l.len() >= 1,
        r.len() >= 1,
    ensures
        join_divs(l, r).len() == l.len() + r.len() - 1,
{
}

proof fn lemma_args_match_concat(a: Seq<usize>, b: Seq<usize>, s: Seq<int>, t: Seq<int>)
    requires
        args_match(a, s),
        args_match(b, t),
    ensures
        args_match(a + b, s + t),
{
    assert forall|i: int| 0 <= i < (a + b).len() implies (#[trigger] (a + b)[i]) as int == (s + t)[i]
    by {
        if i < a.len() {
            assert(a[i] as int == s[i]);
        } else {
            assert(b[i - a.len()] as int == t[i - a.len()]);
        }
    }
}

/// Wraps a fragment run in one more `div` carrying `cls`.
#[verifier::loop_isolation(false)]
fn add_div(cls: &str, divs: &mut Vec<String>)
    ensures
        views_of(final(divs)@) == wrap_divs(cls@, views_of(old(divs)@)),
        final(divs)@.len() == old(divs)@.len(),
{
    let ln = divs.len();
    if ln > 0 {
        let first = divs.remove(0);
        let mut nf = String::from_str("<div class='");
        nf.append(cls);
        nf.append("'>\n");
        nf.append(first.as_str());
        divs.insert(0, nf);
        match divs.pop() {
            Some(last) => {
                let mut nl = last;
                nl.append("</div>\n");
                divs.push(nl);
            },
            None => {},
        }
        proof {
            assert(views_of(final(divs)@) =~= wrap_divs(cls@, views_of(old(divs)@)));
        }
    }
}

/// Joins two fragment runs, merging the boundary fragments into one.
#[verifier::loop_isolation(false)]
fn concat_divs(l: &mut Vec<String>, r: Vec<String>)
    ensures
        views_of(final(l)@) == join_divs(views_of(old(l)@), views_of(r@)),
{
    let ghost gl = old(l)@;
    let ghost gr = r@;
    let mut r = r;
    match l.pop() {
        None => {
            l.append(&mut r);
            proof {
                assert(views_of(final(l)@) =~= join_divs(views_of(gl), views_of(gr)));
            }
        },
        Some(last_l) => {
            if r.len() > 0 {
                let first = r.remove(0);
                let mut merged = last_l;
                merged.append(first.as_str());
                l.push(merged);
                l.append(&mut r);
            } else {
                l.push(last_l);
            }
            proof {
                assert(views_of(final(l)@) =~= join_divs(views_of(gl), views_of(gr)));
            }
        },
    }
}

/// Concatenates two emissions in order, merging their fragment runs.
fn merge_emits(a: Emit, b: Emit) -> (e: Emit)
    ensures
        e.styles@ == a.styles@ + b.styles@,
        views_of(e.pads@) == views_of(a.pads@) + views_of(b.pads@),
        views_of(e.divs@) == join_divs(views_of(a.divs@), views_of(b.divs@)),
        e.args@ == a.args@ + b.args@,
{
    let mut a = a;
    let mut b = b;
    let ghost pa = a.pads@;
    let ghost pb = b.pads@;
    a.styles.append(b.styles.as_str());
    concat_divs(&mut a.divs, b.divs);
    a.pads.append(&mut b.pads);
    a.args.append(&mut b.args);
    proof {
        assert(views_of(a.pads@) =~= views_of(pa) + views_of(pb));
    }
    a
}

impl RealFixed {
    /// Rendered width of this sub-column, paddings included.
    pub(crate) fn size(&self) -> (r: usize)
        requires
            rf_size(*self) <= usize::MAX,
        ensures
            r as int == rf_size(*self),
    {
        self.padding_left + self.padding_right + self.width
    }
}

impl DivFixed {
    /// Rendered width of the whole group, paddings included.
    #[verifier::loop_isolation(false)]
    pub(crate) fn size(&self) -> (r: usize)
        requires
            df_size(*self) <= usize::MAX,
        ensures
            r as int == df_size(*self),
    {
        match self {
            DivFixed::One(d) => d.size(),
            DivFixed::Many(v) => {
                let ghost gv = v@;
                let mut acc: usize = 0;
                let mut i: usize = 0;
                while i < v.len()
                    invariant
                        i <= gv.len(),
                        acc as int == many_size(gv, i as int),
                    decreases gv.len() - i,
                {
                    proof {
                        lemma_many_size_nonneg(gv, i as int);
                        lemma_many_size_mono(gv, i + 1, gv.len() as int);
                    }
                    acc = acc + (v[i].padding_left + v[i].padding_right + v[i].width);
                    i = i + 1;
                }
                acc
            },
        }
    }

    /// Number of sub-columns in the group.
    pub(crate) fn count(&self) -> (r: usize)
        ensures
            r as int == df_count(*self),
    {
        match self {
            DivFixed::One(_) => 1,
            DivFixed::Many(v) => v.len(),
        }
    }

    /// Emits the group: per-column styles and fragments, and for a group of
    /// several the shared sized block around them.
    pub(crate) fn divs(&self, arg_offset: usize, arg_length: usize, cls_prefix: &str, float: &str)
        -> (e: Emit)
        requires
            arg_offset + arg_length <= usize::MAX,
            arg_length as int == df_count(*self),
            df_size(*self) <= usize::MAX,
        ensures
            e.styles@ == df_styles_seq(*self, cls_prefix@, float@),
            views_of(e.pads@) == df_pads_seq(*self, cls_prefix@),
            views_of(e.divs@) == df_divs_seq(*self, cls_prefix@),
            e.divs@.len() == df_count(*self) + 1,
            args_match(e.args@, range_args(arg_offset as int, arg_length as int)),
    {
        match self {
            DivFixed::One(f) => {
                let e = divs_one_fixed(f, arg_offset, arg_length, cls_prefix, float);
                proof {
                    assert(views_of(e.pads@) =~= df_pads_seq(*self, cls_prefix@));
                }
                e
            },
            DivFixed::Many(v) => {
                let e = divs_many_fixed(v, arg_offset, arg_length, cls_prefix, float);
                e
            },
        }
    }
}

/// Emits a lone fixed sub-column.
fn divs_one_fixed(f: &RealFixed, arg_offset: usize, arg_length: usize, cls_prefix: &str, float:
    &str) -> (e: Emit)
    requires
        arg_offset + arg_length <= usize::MAX,
    ensures
        e.styles@ == rf_style_seq(cls_prefix@, *f, float@),
        views_of(e.pads@) == seq![cls_prefix@],
        views_of(e.divs@) == seq![open_div_seq(cls_prefix@), close_div_seq()],
        e.divs@.len() == 2,
        args_match(e.args@, range_args(arg_offset as int, arg_length as int)),
{
    let mut styles = String::from_str(".");
    styles.append(cls_prefix);
    styles.append(" { padding-left: ");
    let s1 = decimal_str(f.padding_left);
    styles.append(s1.as_str());
    styles.append("px; padding-right: ");
    let s2 = decimal_str(f.padding_right);
    styles.append(s2.as_str());
    styles.append("px; width: ");
    let s3 = decimal_str(f.width);
    styles.append(s3.as_str());
    styles.append("px; float: ");
    styles.append(float);
    styles.append("; overflow: hidden; }\n");
    let mut divs: Vec<String> = Vec::new();
    let mut d0 = String::from_str("<div class='");
    d0.append(cls_prefix);
    d0.append("'>");
    divs.push(d0);
    divs.push(String::from_str("</div>\n"));
    let mut pads: Vec<String> = Vec::new();
    pads.push(String::from_str(cls_prefix));
    let args = make_args(arg_offset, arg_length);
    proof {
        assert(views_of(divs@) =~= seq![open_div_seq(cls_prefix@), close_div_seq()]);
        assert(views_of(pads@) =~= seq![cls_prefix@]);
    }
    Emit { styles, pads, divs, args }
}

/// Emits a fixed group of several sub-columns, inside a shared sized block.
#[verifier::loop_isolation(false)]
#[verifier::rlimit(100)]
fn divs_many_fixed(v: &Vec<RealFixed>, arg_offset: usize, arg_length: usize, cls_prefix: &str,
    float: &str) -> (e: Emit)
    requires
        arg_offset + arg_length <= usize::MAX,
        many_size(v@, v@.len() as int) <= usize::MAX,
    ensures
        e.styles@ == many_styles_seq(cls_prefix@, v@, v@.len() as int) + group_style_seq(
            cls_prefix@,
            many_size(v@, v@.len() as int),
            float@,
        ),
        views_of(e.pads@) == Seq::new(v@.len(), |i: int| cell_class_seq(cls_prefix@, i)),
        views_of(e.divs@) == wrap_divs(cls_prefix@, cells_divs_seq(cls_prefix@, v@.len() as int)),
        e.divs@.len() == v@.len() + 1,
        args_match(e.args@, range_args(arg_offset as int, arg_length as int)),
{
    let ghost gv = v@;
    let n = v.len();
    let mut styles = String::new();
    let mut divs: Vec<String> = Vec::new();
    let mut pads: Vec<String> = Vec::new();
    let mut i: usize = 0;
    proof {
        assert(styles@ =~= many_styles_seq(cls_prefix@, gv, 0));
    }
    while i < n
        invariant
            i <= n == gv.len(),
            styles@ == many_styles_seq(cls_prefix@, gv, i as int),
            divs@.len() == i,
            forall|t: int|
                0 <= t < i ==> (#[trigger] divs@[t])@ == cells_divs_seq(cls_prefix@, n as int)[t],
            pads@.len() == i,
            forall|t: int|
                0 <= t < i ==> (#[trigger] pads@[t])@ == cell_class_seq(cls_prefix@, t),
        decreases n - i,
    {
        let mut cls = String::from_str(cls_prefix);
        cls.append("_c");
        let ci = decimal_str(i);
        cls.append(ci.as_str());
        proof {
            assert(cls@ == cell_class_seq(cls_prefix@, i as int));
        }
        styles.append(".");
        styles.append(cls.as_str());
        styles.append(" { padding-left: ");
        let s1 = decimal_str(v[i].padding_left);
        styles.append(s1.as_str());
        styles.append("px; padding-right: ");
        let s2 = decimal_str(v[i].padding_right);
        styles.append(s2.as_str());
        styles.append("px; width: ");
        let s3 = decimal_str(v[i].width);
        styles.append(s3.as_str());
        styles.append("px; overflow: hidden; float: left; }\n");
        proof {
            assert(styles@ =~= many_styles_seq(cls_prefix@, gv, i + 1));
        }
        let mut d = if i == 0 {
            String::from_str("<div class='")
        } else {
            String::from_str("</div>\n<div class='")
        };
        d.append(cls.as_str());
        d.append("'>");
        proof {
            assert(d@ == cells_divs_seq(cls_prefix@, n as int)[i as int]);
        }
        divs.push(d);
        pads.push(cls);
        i = i + 1;
    }
    divs.push(String::from_str("</div>\n"));
    proof {
        assert(views_of(divs@) =~= cells_divs_seq(cls_prefix@, n as int));
        assert(views_of(pads@) =~= Seq::new(gv.len(), |t: int| cell_class_seq(cls_prefix@, t)));
    }
    let total = {
        let ghost gtotal = many_size(gv, gv.len() as int);
        let mut acc: usize = 0;
        let mut j: usize = 0;
        while j < n
            invariant
                j <= n,
                acc as int == many_size(gv, j as int),
            decreases n - j,
        {
            proof {
                lemma_many_size_nonneg(gv, j as int);
                lemma_many_size_mono(gv, j + 1, gv.len() as int);
            }
            acc = acc + (v[j].padding_left + v[j].padding_right + v[j].width);
            j = j + 1;
        }
        acc
    };
    styles.append(".");
    styles.append(cls_prefix);
    styles.append(" { width: ");
    let ts = decimal_str(total);
    styles.append(ts.as_str());
    styles.append("px; float: ");
    styles.append(float);
    styles.append("; overflow: hidden; }\n");
    proof {
        assert(styles@ =~= many_styles_seq(cls_prefix@, gv, gv.len() as int) + group_style_seq(
            cls_prefix@,
            many_size(gv, gv.len() as int),
            float@,
        ));
    }
    add_div(cls_prefix, &mut divs);
    let args = make_args(arg_offset, arg_length);
    Emit { styles, pads, divs, args }
}

impl Fixed {
    /// Rendered width of the flanking group, zero when absent.
    pub(crate) fn size(&self) -> (r: usize)
        requires
            fixed_size(*self) <= usize::MAX,
        ensures
            r as int == fixed_size(*self),
    {
        match self {
            Fixed::Empty => 0,
            Fixed::Left(d) => d.size(),
            Fixed::Right(d) => d.size(),
        }
    }

    /// Number of fixed sub-columns flanking the flexible one.
    pub(crate) fn count(&self) -> (r: usize)
        ensures
            r as int == fixed_count(*self),
    {
        match self {
            Fixed::Empty => 0,
            Fixed::Left(d) => d.count(),
            Fixed::Right(d) => d.count(),
        }
    }
}

impl DivSoftReal {
    /// Emits the flexible column itself.
    pub(crate) fn divs(&self, arg_offset: usize, arg_length: usize, cls_prefix: &str, float: &str)
        -> (e: Emit)
        requires
            arg_offset + arg_length <= usize::MAX,
        ensures
            e.styles@ == dsr_style_seq(cls_prefix@, *self, float@),
            views_of(e.pads@) == seq![cls_prefix@],
            views_of(e.divs@) == dsr_divs_seq(cls_prefix@),
            e.divs@.len() == 2,
            args_match(e.args@, range_args(arg_offset as int, arg_length as int)),
    {
        let mut styles = String::from_str(".");
        styles.append(cls_prefix);
        styles.append(" { padding-left: ");
        let s1 = decimal_str(self.padding_left);
        styles.append(s1.as_str());
        styles.append("px; padding-right: ");
        let s2 = decimal_str(self.padding_right);
        styles.append(s2.as_str());
        styles.append("px; min-width: ");
        let s3 = decimal_str(self.min_width);
        styles.append(s3.as_str());
        styles.append("px; margin-");
        styles.append(float);
        styles.append(": ");
        let m = match self.margin {
            Some(m) => m,
            None => 0,
        };
        let s4 = decimal_str(m);
        styles.append(s4.as_str());
        styles.append("px; overflow: hidden; }\n");
        let mut divs: Vec<String> = Vec::new();
        let mut d0 = String::from_str("<div class='");
        d0.append(cls_prefix);
        d0.append("'>");
        divs.push(d0);
        divs.push(String::from_str("</div>\n"));
        let mut pads: Vec<String> = Vec::new();
        pads.push(String::from_str(cls_prefix));
        let args = make_args(arg_offset, arg_length);
        proof {
            assert(views_of(divs@) =~= dsr_divs_seq(cls_prefix@));
            assert(views_of(pads@) =~= seq![cls_prefix@]);
        }
        Emit { styles, pads, divs, args }
    }
}

/// Appends the nested band's own rule: its minimum width and reserved margin.
fn append_band_style(styles: &mut String, cls: &str, mw: usize, float: &str, margin: Option<usize>)
    ensures
        final(styles)@ == old(styles)@ + band_style_seq(
            cls@,
            mw as int,
            float@,
            margin_val(margin),
        ),
{
    styles.append(".");
    styles.append(cls);
    styles.append(" { min-width: ");
    let s1 = decimal_str(mw);
    styles.append(s1.as_str());
    styles.append("px; margin-");
    styles.append(float);
    styles.append(": ");
    let m = match margin {
        Some(m) => m,
        None => 0,
    };
    let s2 = decimal_str(m);
    styles.append(s2.as_str());
    styles.append("px; overflow: hidden; }\n");
}

impl DivSoft {
    /// Number of columns on the soft side: the flexible one, plus a fixed
    /// group nested beside it.
    pub(crate) fn count(&self) -> (r: usize)
        requires
            ds_count(*self) <= usize::MAX,
        ensures
            r as int == ds_count(*self),
    {
        match self {
            DivSoft::Phantom { fixed, .. } => fixed.count() + 1,
            DivSoft::Real(..) => 1,
        }
    }

    /// Emits the soft side: the flexible column alone, or the nested band
    /// holding a fixed group (emitted first when floated right) and the
    /// flexible column.
    pub(crate) fn divs(&self, arg_offset: usize, arg_length: usize, cls_prefix: &str, float: &str)
        -> (e: Emit)
        requires
            arg_offset + arg_length <= usize::MAX,
            arg_offset + ds_count(*self) <= usize::MAX,
            arg_length as int == ds_count(*self),
            ds_fixed_size_ok(*self),
        ensures
            e.styles@ == ds_styles_seq(*self, cls_prefix@, float@),
            views_of(e.pads@) == ds_pads_seq(*self, cls_prefix@),
            views_of(e.divs@) == ds_divs_seq(*self, cls_prefix@),
            e.divs@.len() == ds_count(*self) + 1,
            args_match(e.args@, ds_args_seq(*self, arg_offset as int, arg_length as int)),
    {
        match self {
            DivSoft::Phantom { fixed, soft, min_width, margin } => match fixed {
                Fixed::Empty => soft.divs(arg_offset, arg_length, cls_prefix, float),
                Fixed::Left(left) => {
                    let l_cnt = left.count();
                    let mut cls_l = String::from_str(cls_prefix);
                    cls_l.append("_l");
                    let el = left.divs(arg_offset, l_cnt, cls_l.as_str(), "left");
                    let mut cls_r = String::from_str(cls_prefix);
                    cls_r.append("_r");
                    let er = soft.divs(arg_offset + l_cnt, 1, cls_r.as_str(), "left");
                    proof {
                        lemma_args_match_concat(
                            el.args@,
                            er.args@,
                            range_args(arg_offset as int, l_cnt as int),
                            range_args(arg_offset + l_cnt as int, 1),
                        );
                    }
                    let mut e = merge_emits(el, er);
                    append_band_style(&mut e.styles, cls_prefix, *min_width, float, *margin);
                    add_div("row", &mut e.divs);
                    add_div(cls_prefix, &mut e.divs);
                    e
                },
                Fixed::Right(right) => {
                    let r_cnt = right.count();
                    let mut cls_r = String::from_str(cls_prefix);
                    cls_r.append("_r");
                    let er = right.divs(arg_offset + 1, r_cnt, cls_r.as_str(), "right");
                    let mut cls_l = String::from_str(cls_prefix);
                    cls_l.append("_l");
                    let el = soft.divs(arg_offset, 1, cls_l.as_str(), "right");
                    proof {
                        lemma_args_match_concat(
                            er.args@,
                            el.args@,
                            range_args(arg_offset as int + 1, r_cnt as int),
                            range_args(arg_offset as int, 1),
                        );
                    }
                    let mut e = merge_emits(er, el);
                    append_band_style(&mut e.styles, cls_prefix, *min_width, float, *margin);
                    add_div("row", &mut e.divs);
                    add_div(cls_prefix, &mut e.divs);
                    e
                },
            },
            DivSoft::Real(r) => r.divs(arg_offset, arg_length, cls_prefix, float),
        }
    }
}

/// Whether the fixed group nested on the soft side has a machine-representable
/// rendered width.
pub(crate) open spec fn ds_fixed_size_ok(s: DivSoft) -> bool {
    match s {
        DivSoft::Phantom { fixed, .. } => fixed_size(fixed) <= usize::MAX,
        DivSoft::Real(_) => true,
    }
}

/// Whether both fixed groups of a row plan have machine-representable widths.
pub(crate) open spec fn ph_sizes_ok(p: Phantom) -> bool {
    fixed_size(p.fixed) <= usize::MAX && ds_fixed_size_ok(p.soft)
}

impl Phantom {
    /// Number of caller values this row consumes.
    pub(crate) fn count(&self) -> (r: usize)
        requires
            ph_count(*self) <= usize::MAX,
        ensures
            r as int == ph_count(*self),
    {
        self.fixed.count() + self.soft.count()
    }

    /// Emits the whole row plan: the fixed flank and the soft side, the
    /// right-floated flank coming first in text order.
    pub(crate) fn divs(&self, arg_offset: usize, arg_length: usize, cls_prefix: &str) -> (e: Emit)
        requires
            arg_offset + arg_length <= usize::MAX,
            arg_length as int == ph_count(*self),
            ph_sizes_ok(*self),
        ensures
            e.styles@ == ph_styles_seq(*self, cls_prefix@),
            views_of(e.pads@) == ph_pads_seq(*self, cls_prefix@),
            views_of(e.divs@) == ph_divs_seq(*self, cls_prefix@),
            e.divs@.len() == ph_count(*self) + 1,
            args_match(e.args@, ph_args_seq(*self, arg_offset as int, arg_length as int)),
    {
        match &self.fixed {
            Fixed::Empty => self.soft.divs(arg_offset, arg_length, cls_prefix, "left"),
            Fixed::Left(left) => {
                let l_cnt = left.count();
                let r_cnt = self.soft.count();
                let mut cls_l = String::from_str(cls_prefix);
                cls_l.append("_l");
                let el = left.divs(arg_offset, l_cnt, cls_l.as_str(), "left");
                let mut cls_r = String::from_str(cls_prefix);
                cls_r.append("_r");
                let er = self.soft.divs(arg_offset + l_cnt, r_cnt, cls_r.as_str(), "left");
                proof {
                    lemma_args_match_concat(
                        el.args@,
                        er.args@,
                        range_args(arg_offset as int, l_cnt as int),
                        ds_args_seq(self.soft, arg_offset + l_cnt as int, r_cnt as int),
                    );
                    lemma_join_divs_len(views_of(el.divs@), views_of(er.divs@));
                }
                merge_emits(el, er)
            },
            Fixed::Right(right) => {
                let r_cnt = right.count();
                let l_cnt = self.soft.count();
                let mut cls_r = String::from_str(cls_prefix);
                cls_r.append("_r");
                let er = right.divs(arg_offset + l_cnt, r_cnt, cls_r.as_str(), "right");
                let mut cls_l = String::from_str(cls_prefix);
                cls_l.append("_l");
                let el = self.soft.divs(arg_offset, l_cnt, cls_l.as_str(), "right");
                proof {
                    lemma_args_match_concat(
                        er.args@,
                        el.args@,
                        range_args(arg_offset + l_cnt as int, r_cnt as int),
                        ds_args_seq(self.soft, arg_offset as int, l_cnt as int),
                    );
                    lemma_join_divs_len(views_of(er.divs@), views_of(el.divs@));
                }
                merge_emits(er, el)
            },
        }
    }
}

// ------------------------------------------------------------------
// Building the soft layout tree from a column spec
// ------------------------------------------------------------------

/// One soft row declaration: an ordered list of optional sub-widths, the one
/// absent entry marking the flexible slot. The percentage hint is carried but
/// not interpreted.
pub struct SoftColumn {
    pub percentage: Option<usize>,
    pub subcolumns: Vec<Option<usize>>,
}

/// Sum of a list of declared sub-widths.
pub open spec fn ws_sum(ws: Seq<usize>) -> int
    decreases ws.len(),
{
    if ws.len() == 0 {
        0
    } else {
        ws_sum(ws.drop_last()) + ws.last()
    }
}

proof fn lemma_ws_sum_take_step(ws: Seq<usize>, k: int)
    requires
        0 < k <= ws.len(),
    ensures
        ws_sum(ws.take(k)) == ws_sum(ws.take(k - 1)) + ws[k - 1],
{
    assert(ws.take(k).drop_last() =~= ws.take(k - 1));
}

proof fn lemma_ws_sum_nonneg(ws: Seq<usize>)
    ensures
        ws_sum(ws) >= 0,
    decreases ws.len(),
{
    if ws.len() > 0 {
        lemma_ws_sum_nonneg(ws.drop_last());
    }
}

proof fn lemma_ws_sum_push(ws: Seq<usize>, w: usize)
    ensures
        ws_sum(ws.push(w)) == ws_sum(ws) + w,
{
    assert(ws.push(w).drop_last() =~= ws);
}

/// Rendered width of a fixed group: the declared widths, one padding unit on
/// each interior side, and one more unit on the table-edge side.
pub open spec fn group_size_spec(ws: Seq<usize>, edge: bool, hp: int) -> int {
    ws_sum(ws) + 2 * hp * ws.len() + if edge && ws.len() > 0 {
        hp
    } else {
        0
    }
}

/// The resolved sub-column `i` of a right-flanking group.
pub(crate) open spec fn right_rf(ws: Seq<usize>, i: int, edge: bool, hp: int) -> RealFixed {
    RealFixed {
        padding_left: hp as usize,
        padding_right: (if i == ws.len() - 1 && edge {
            2 * hp
        } else {
            hp
        }) as usize,
        width: ws[i],
    }
}

/// The resolved sub-column `i` of a left-flanking group.
pub(crate) open spec fn left_rf(ws: Seq<usize>, i: int, edge: bool, hp: int) -> RealFixed {
    RealFixed {
        padding_left: (if i == 0 && edge {
            2 * hp
        } else {
            hp
        }) as usize,
        padding_right: hp as usize,
        width: ws[i],
    }
}

pub(crate) open spec fn df_matches_right(d: DivFixed, ws: Seq<usize>, edge: bool, hp: int) -> bool {
    match d {
        DivFixed::One(f) => ws.len() == 1 && f == right_rf(ws, 0, edge, hp),
        DivFixed::Many(v) => ws.len() != 1 && v@.len() == ws.len() && forall|i: int|
            0 <= i < ws.len() ==> #[trigger] v@[i] == right_rf(ws, i, edge, hp),
    }
}

pub(crate) open spec fn df_matches_left(d: DivFixed, ws: Seq<usize>, edge: bool, hp: int) -> bool {
    match d {
        DivFixed::One(f) => ws.len() == 1 && f == left_rf(ws, 0, edge, hp),
        DivFixed::Many(v) => ws.len() != 1 && v@.len() == ws.len() && forall|i: int|
            0 <= i < ws.len() ==> #[trigger] v@[i] == left_rf(ws, i, edge, hp),
    }
}

proof fn lemma_right_size_bridge(v: Seq<RealFixed>, ws: Seq<usize>, edge: bool, hp: int, k: int)
    requires
        v.len() == ws.len(),
        forall|i: int| 0 <= i < ws.len() ==> #[trigger] v[i] == right_rf(ws, i, edge, hp),
        0 <= k <= ws.len(),
        0 <= hp,
        2 * hp <= usize::MAX,
    ensures
        many_size(v, k) == ws_sum(ws.take(k)) + 2 * hp * k + if edge && k == ws.len() && k > 0 {
            hp
        } else {
            0
        },
    decreases k,
{
    if k == 0 {
        assert(ws.take(0) =~= Seq::<usize>::empty());
        assert(2 * hp * 0 == 0) by (nonlinear_arith);
    } else {
        lemma_right_size_bridge(v, ws, edge, hp, k - 1);
        lemma_ws_sum_take_step(ws, k);
        assert(2 * hp * k == 2 * hp * (k - 1) + 2 * hp) by (nonlinear_arith);
    }
}

proof fn lemma_left_size_bridge(v: Seq<RealFixed>, ws: Seq<usize>, edge: bool, hp: int, k: int)
    requires
        v.len() == ws.len(),
        forall|i: int| 0 <= i < ws.len() ==> #[trigger] v[i] == left_rf(ws, i, edge, hp),
        0 <= k <= ws.len(),
        0 <= hp,
        2 * hp <= usize::MAX,
    ensures
        many_size(v, k) == ws_sum(ws.take(k)) + 2 * hp * k + if edge && k > 0 {
            hp
        } else {
            0
        },
    decreases k,
{
    if k == 0 {
        assert(ws.take(0) =~= Seq::<usize>::empty());
        assert(2 * hp * 0 == 0) by (nonlinear_arith);
    } else {
        lemma_left_size_bridge(v, ws, edge, hp, k - 1);
        lemma_ws_sum_take_step(ws, k);
        assert(2 * hp * k == 2 * hp * (k - 1) + 2 * hp) by (nonlinear_arith);
    }
}

/// Rendered width of a group characterized elementwise equals the closed form.
proof fn lemma_df_size_right(d: DivFixed, ws: Seq<usize>, edge: bool, hp: int)
    requires
        df_matches_right(d, ws, edge, hp),
        0 <= hp,
        2 * hp <= usize::MAX,
        ws.len() >= 1,
    ensures
        df_size(d) == group_size_spec(ws, edge, hp),
{
    match d {
        DivFixed::One(f) => {
            assert(ws.drop_last() =~= Seq::<usize>::empty());
            assert(ws_sum(ws.drop_last()) == 0);
            assert(ws_sum(ws) == ws[0]);
            assert(2 * hp * 1 == 2 * hp) by (nonlinear_arith);
        },
        DivFixed::Many(v) => {
            lemma_right_size_bridge(v@, ws, edge, hp, ws.len() as int);
            assert(ws.take(ws.len() as int) =~= ws);
        },
    }
}

proof fn lemma_df_size_left(d: DivFixed, ws: Seq<usize>, edge: bool, hp: int)
    requires
        df_matches_left(d, ws, edge, hp),
        0 <= hp,
        2 * hp <= usize::MAX,
        ws.len() >= 1,
    ensures
        df_size(d) == group_size_spec(ws, edge, hp),
{
    match d {
        DivFixed::One(f) => {
            assert(ws.drop_last() =~= Seq::<usize>::empty());
            assert(ws_sum(ws.drop_last()) == 0);
            assert(ws_sum(ws) == ws[0]);
            assert(2 * hp * 1 == 2 * hp) by (nonlinear_arith);
        },
        DivFixed::Many(v) => {
            lemma_left_size_bridge(v@, ws, edge, hp, ws.len() as int);
            assert(ws.take(ws.len() as int) =~= ws);
        },
    }
}

impl Fixed {
    /// Builds the right-flanking group from its declared widths: every
    /// sub-column gets one padding unit on each interior side, the rightmost
    /// two units when it touches the table edge.
    pub(crate) fn right(right: Vec<usize>, most_right: bool, hp: usize) -> (r: Fixed)
        requires
            right@.len() >= 1,
            2 * (hp as int) <= usize::MAX,
        ensures
            r matches Fixed::Right(d) && df_matches_right(d, right@, most_right, hp as int),
    {
        let ghost gws = right@;
        if right.len() == 1 {
            Fixed::Right(
                DivFixed::One(
                    RealFixed {
                        padding_left: hp,
                        padding_right: if most_right {
                            2 * hp
                        } else {
                            hp
                        },
                        width: right[0],
                    },
                ),
            )
        } else {
            let last = right.len() - 1;
            let mut v: Vec<RealFixed> = Vec::new();
            let mut i: usize = 0;
            while i < right.len()
                invariant
                    i <= gws.len(),
                    right@ == gws,
                    last == gws.len() - 1,
                    2 * (hp as int) <= usize::MAX,
                    v@.len() == i,
                    forall|t: int|
                        0 <= t < i ==> #[trigger] v@[t] == right_rf(gws, t, most_right, hp as int),
                decreases gws.len() - i,
            {
                v.push(
                    RealFixed {
                        padding_left: hp,
                        padding_right: if i == last && most_right {
                            2 * hp
                        } else {
                            hp
                        },
                        width: right[i],
                    },
                );
                i = i + 1;
            }
            Fixed::Right(DivFixed::Many(v))
        }
    }

    /// Builds the left-flanking group: mirror image of the right one, the
    /// leftmost sub-column taking two units when it touches the table edge.
    pub(crate) fn left(left: Vec<usize>, most_left: bool, hp: usize) -> (r: Fixed)
        requires
            left@.len() >= 1,
            2 * (hp as int) <= usize::MAX,
        ensures
            r matches Fixed::Left(d) && df_matches_left(d, left@, most_left, hp as int),
    {
        let ghost gws = left@;
        if left.len() == 1 {
            Fixed::Left(
                DivFixed::One(
                    RealFixed {
                        padding_left: if most_left {
                            2 * hp
                        } else {
                            hp
                        },
                        padding_right: hp,
                        width: left[0],
                    },
                ),
            )
        } else {
            let mut v: Vec<RealFixed> = Vec::new();
            let mut i: usize = 0;
            while i < left.len()
                invariant
                    i <= gws.len(),
                    left@ == gws,
                    2 * (hp as int) <= usize::MAX,
                    v@.len() == i,
                    forall|t: int|
                        0 <= t < i ==> #[trigger] v@[t] == left_rf(gws, t, most_left, hp as int),
                decreases gws.len() - i,
            {
                v.push(
                    RealFixed {
                        padding_left: if i == 0 && most_left {
                            2 * hp
                        } else {
                            hp
                        },
                        padding_right: hp,
                        width: left[i],
                    },
                );
                i = i + 1;
            }
            Fixed::Left(DivFixed::Many(v))
        }
    }
}

// ------------------------------------------------------------------
// Partitioning a soft column spec at its flexible slot
// ------------------------------------------------------------------

/// Index of the first absent entry, or the length when every entry is
/// present.
pub open spec fn first_none(sub: Seq<Option<usize>>) -> int
    decreases sub.len(),
{
    if sub.len() == 0 {
        0
    } else if sub[0] is None {
        0
    } else {
        1 + first_none(sub.skip(1))
    }
}

/// The declared widths before the flexible slot.
pub open spec fn lefts_of(sub: Seq<Option<usize>>) -> Seq<usize> {
    Seq::new(first_none(sub) as nat, |i: int| sub[i]->0)
}

/// The declared widths after the flexible slot (the whole tail is present
/// exactly when the spec has one absent entry).
pub open spec fn rights_of(sub: Seq<Option<usize>>) -> Seq<usize> {
    let p = first_none(sub);
    if p < sub.len() {
        Seq::new((sub.len() - p - 1) as nat, |i: int| sub[p + 1 + i]->0)
    } else {
        Seq::empty()
    }
}

proof fn lemma_first_none(sub: Seq<Option<usize>>)
    ensures
        0 <= first_none(sub) <= sub.len(),
        forall|t: int| 0 <= t < first_none(sub) ==> (#[trigger] sub[t]) is Some,
        first_none(sub) < sub.len() ==> sub[first_none(sub)] is None,
    decreases sub.len(),
{
    if sub.len() > 0 && !(sub[0] is None) {
        lemma_first_none(sub.skip(1));
        assert forall|t: int| 0 <= t < first_none(sub) implies (#[trigger] sub[t]) is Some by {
            if t > 0 {
                assert(sub.skip(1)[t - 1] is Some);
            }
        }
    }
}

proof fn lemma_unk_first_none(sub: Seq<Option<usize>>, i: int)
    requires
        0 <= i <= sub.len(),
    ensures
        unk_of(sub.take(i)) == 0 <==> i <= first_none(sub),
    decreases i,
{
    lemma_first_none(sub);
    if i == 0 {
        assert(sub.take(0) =~= Seq::<Option<usize>>::empty());
    } else {
        lemma_unk_first_none(sub, i - 1);
        lemma_take_step(sub, i);
        lemma_prefix_nonneg(sub.take(i - 1));
    }
}

// ------------------------------------------------------------------
// Input-level model of a compiled soft row
// ------------------------------------------------------------------

/// Two padding units at a table edge, one at an interior boundary.
pub open spec fn edge_units(b: bool) -> int {
    if b {
        2
    } else {
        1
    }
}

/// Clamps a computed width at zero.
pub open spec fn clip(a: int) -> int {
    if a >= 0 {
        a
    } else {
        0
    }
}

/// The flexible column of a row with no fixed flank.
pub(crate) open spec fn plain_soft_spec(mw: int, hp: int, ml: bool, mr: bool) -> DivSoftReal {
    DivSoftReal {
        min_width: clip(mw - (edge_units(mr) + edge_units(ml)) * hp) as usize,
        padding_left: (edge_units(ml) * hp) as usize,
        padding_right: (edge_units(mr) * hp) as usize,
        margin: None,
    }
}

/// The flexible column beside a right-flanking group.
pub(crate) open spec fn right_only_soft_spec(
    mw: int,
    hp: int,
    ml: bool,
    mr: bool,
    rights: Seq<usize>,
) -> DivSoftReal {
    let m = group_size_spec(rights, mr, hp);
    DivSoftReal {
        min_width: clip(mw - m - (edge_units(ml) + 1) * hp) as usize,
        margin: Some(m as usize),
        padding_left: (edge_units(ml) * hp) as usize,
        padding_right: hp as usize,
    }
}

/// The flexible column beside a left-flanking group.
pub(crate) open spec fn left_only_soft_spec(mw: int, hp: int, ml: bool, lefts: Seq<usize>)
    -> DivSoftReal {
    let m = group_size_spec(lefts, ml, hp);
    DivSoftReal {
        min_width: clip(mw - m - (edge_units(ml) + 1) * hp) as usize,
        margin: Some(m as usize),
        padding_left: hp as usize,
        padding_right: (edge_units(ml) * hp) as usize,
    }
}

/// The flexible column inside the nested band, with groups on both sides.
pub(crate) open spec fn both_inner_soft_spec(
    mw: int,
    hp: int,
    ml: bool,
    mr: bool,
    lefts: Seq<usize>,
    rights: Seq<usize>,
) -> DivSoftReal {
    let a = group_size_spec(lefts, ml, hp);
    let b = group_size_spec(rights, mr, hp);
    DivSoftReal {
        min_width: clip(mw - a - b - hp * 2) as usize,
        margin: Some(b as usize),
        padding_left: hp as usize,
        padding_right: hp as usize,
    }
}

/// Whether the declared minimum width fails to exceed the fixed flanking
/// width (the row is then rejected).
pub open spec fn soft_too_long_spec(
    sub: Seq<Option<usize>>,
    hp: int,
    mw: int,
    ml: bool,
    mr: bool,
) -> bool {
    let lefts = lefts_of(sub);
    let rights = rights_of(sub);
    if lefts.len() == 0 && rights.len() == 0 {
        false
    } else if lefts.len() == 0 {
        mw <= group_size_spec(rights, mr, hp)
    } else if rights.len() == 0 {
        mw <= group_size_spec(lefts, ml, hp)
    } else {
        mw <= group_size_spec(lefts, ml, hp) + group_size_spec(rights, mr, hp)
    }
}

/// A soft row compiles exactly when its spec has one flexible slot and the
/// minimum width exceeds the fixed flanking width.
pub open spec fn soft_fits(sub: Seq<Option<usize>>, hp: int, mw: int, ml: bool, mr: bool) -> bool {
    unk_of(sub) == 1 && !soft_too_long_spec(sub, hp, mw, ml, mr)
}

/// How the built layout tree reflects the partitioned input.
pub(crate) open spec fn ph_matches(
    p: Phantom,
    sub: Seq<Option<usize>>,
    hp: int,
    mw: int,
    ml: bool,
    mr: bool,
) -> bool {
    let lefts = lefts_of(sub);
    let rights = rights_of(sub);
    if lefts.len() == 0 && rights.len() == 0 {
        p.fixed is Empty && p.soft == DivSoft::Real(plain_soft_spec(mw, hp, ml, mr))
    } else if lefts.len() == 0 {
        &&& p.fixed matches Fixed::Right(d) && df_matches_right(d, rights, mr, hp)
        &&& p.soft == DivSoft::Real(right_only_soft_spec(mw, hp, ml, mr, rights))
    } else if rights.len() == 0 {
        &&& p.fixed matches Fixed::Left(d) && df_matches_left(d, lefts, ml, hp)
        &&& p.soft == DivSoft::Real(left_only_soft_spec(mw, hp, ml, lefts))
    } else {
        &&& p.fixed matches Fixed::Left(d) && df_matches_left(d, lefts, ml, hp)
        &&& p.soft matches DivSoft::Phantom { min_width, fixed, soft, margin }
            && min_width as int == mw - group_size_spec(lefts, ml, hp) && margin == Some(
            (group_size_spec(lefts, ml, hp)) as usize,
        ) && (fixed matches Fixed::Right(d2) && df_matches_right(d2, rights, mr, hp)) && soft
            == both_inner_soft_spec(mw, hp, ml, mr, lefts, rights)
    }
}

// ------------------------------------------------------------------
// Input-level text of a compiled soft row
// ------------------------------------------------------------------

/// Styles of the first `k` sub-columns of a right-flanking group, from the
/// declared widths alone.
pub open spec fn right_cells_styles(ws: Seq<usize>, edge: bool, hp: int, cls: Seq<char>, k: int)
    -> Seq<char>
    decreases k,
{
    if k <= 0 {
        Seq::empty()
    } else {
        right_cells_styles(ws, edge, hp, cls, k - 1) + cell_rule_seq(
            cell_class_seq(cls, k - 1),
            hp,
            if k - 1 == ws.len() - 1 && edge {
                2 * hp
            } else {
                hp
            },
            ws[k - 1] as int,
        )
    }
}

/// Styles of the first `k` sub-columns of a left-flanking group.
pub open spec fn left_cells_styles(ws: Seq<usize>, edge: bool, hp: int, cls: Seq<char>, k: int)
    -> Seq<char>
    decreases k,
{
    if k <= 0 {
        Seq::empty()
    } else {
        left_cells_styles(ws, edge, hp, cls, k - 1) + cell_rule_seq(
            cell_class_seq(cls, k - 1),
            if k - 1 == 0 && edge {
                2 * hp
            } else {
                hp
            },
            hp,
            ws[k - 1] as int,
        )
    }
}

/// The whole CSS text of a right-flanking group.
pub open spec fn group_styles_right(ws: Seq<usize>, edge: bool, hp: int, cls: Seq<char>, float: Seq<
    char,
>) -> Seq<char> {
    if ws.len() == 1 {
        one_style_seq(cls, hp, if edge {
            2 * hp
        } else {
            hp
        }, ws[0] as int, float)
    } else {
        right_cells_styles(ws, edge, hp, cls, ws.len() as int) + group_style_seq(
            cls,
            group_size_spec(ws, edge, hp),
            float,
        )
    }
}

/// The whole CSS text of a left-flanking group.
pub open spec fn group_styles_left(ws: Seq<usize>, edge: bool, hp: int, cls: Seq<char>, float: Seq<
    char,
>) -> Seq<char> {
    if ws.len() == 1 {
        one_style_seq(cls, if edge {
            2 * hp
        } else {
            hp
        }, hp, ws[0] as int, float)
    } else {
        left_cells_styles(ws, edge, hp, cls, ws.len() as int) + group_style_seq(
            cls,
            group_size_spec(ws, edge, hp),
            float,
        )
    }
}

proof fn lemma_right_styles_bridge(v: Seq<RealFixed>, ws: Seq<usize>, edge: bool, hp: int, cls: Seq<
    char,
>, k: int)
    requires
        v.len() == ws.len(),
        forall|i: int| 0 <= i < ws.len() ==> #[trigger] v[i] == right_rf(ws, i, edge, hp),
        0 <= k <= ws.len(),
        0 <= hp,
        2 * hp <= usize::MAX,
    ensures
        many_styles_seq(cls, v, k) == right_cells_styles(ws, edge, hp, cls, k),
    decreases k,
{
    if k > 0 {
        lemma_right_styles_bridge(v, ws, edge, hp, cls, k - 1);
    }
}

proof fn lemma_left_styles_bridge(v: Seq<RealFixed>, ws: Seq<usize>, edge: bool, hp: int, cls: Seq<
    char,
>, k: int)
    requires
        v.len() == ws.len(),
        forall|i: int| 0 <= i < ws.len() ==> #[trigger] v[i] == left_rf(ws, i, edge, hp),
        0 <= k <= ws.len(),
        0 <= hp,
        2 * hp <= usize::MAX,
    ensures
        many_styles_seq(cls, v, k) == left_cells_styles(ws, edge, hp, cls, k),
    decreases k,
{
    if k > 0 {
        lemma_left_styles_bridge(v, ws, edge, hp, cls, k - 1);
    }
}

proof fn lemma_df_styles_right(d: DivFixed, ws: Seq<usize>, edge: bool, hp: int, cls: Seq<char>,
    float: Seq<char>)
    requires
        df_matches_right(d, ws, edge, hp),
        ws.len() >= 1,
        0 <= hp,
        2 * hp <= usize::MAX,
    ensures
        df_styles_seq(d, cls, float) == group_styles_right(ws, edge, hp, cls, float),
{
    match d {
        DivFixed::One(_) => {},
        DivFixed::Many(v) => {
            lemma_right_styles_bridge(v@, ws, edge, hp, cls, ws.len() as int);
            lemma_df_size_right(d, ws, edge, hp);
        },
    }
}

proof fn lemma_df_styles_left(d: DivFixed, ws: Seq<usize>, edge: bool, hp: int, cls: Seq<char>,
    float: Seq<char>)
    requires
        df_matches_left(d, ws, edge, hp),
        ws.len() >= 1,
        0 <= hp,
        2 * hp <= usize::MAX,
    ensures
        df_styles_seq(d, cls, float) == group_styles_left(ws, edge, hp, cls, float),
{
    match d {
        DivFixed::One(_) => {},
        DivFixed::Many(v) => {
            lemma_left_styles_bridge(v@, ws, edge, hp, cls, ws.len() as int);
            lemma_df_size_left(d, ws, edge, hp);
        },
    }
}

/// The markup fragments of a fixed group of `n` sub-columns.
pub open spec fn group_divs_spec(cls: Seq<char>, n: int) -> Seq<Seq<char>> {
    if n == 1 {
        seq![open_div_seq(cls), close_div_seq()]
    } else {
        wrap_divs(cls, cells_divs_seq(cls, n))
    }
}

/// The vertically padded classes of a fixed group of `n` sub-columns.
pub open spec fn group_pads_spec(cls: Seq<char>, n: int) -> Seq<Seq<char>> {
    if n == 1 {
        seq![cls]
    } else {
        Seq::new(n as nat, |i: int| cell_class_seq(cls, i))
    }
}

/// The whole CSS text of one soft row plan, from its partitioned input.
pub open spec fn soft_tree_styles_spec(uid: Seq<char>, mw: int, hp: int, sub: Seq<Option<usize>>)
    -> Seq<char> {
    let lefts = lefts_of(sub);
    let rights = rights_of(sub);
    if lefts.len() == 0 && rights.len() == 0 {
        flex_style_seq(uid, 2 * hp, 2 * hp, clip(mw - 4 * hp), "left"@, 0)
    } else if lefts.len() == 0 {
        let m = group_size_spec(rights, true, hp);
        group_styles_right(rights, true, hp, uid + "_r"@, "right"@) + flex_style_seq(
            uid + "_l"@,
            2 * hp,
            hp,
            clip(mw - m - 3 * hp),
            "right"@,
            m,
        )
    } else if rights.len() == 0 {
        let m = group_size_spec(lefts, true, hp);
        group_styles_left(lefts, true, hp, uid + "_l"@, "left"@) + flex_style_seq(
            uid + "_r"@,
            hp,
            2 * hp,
            clip(mw - m - 3 * hp),
            "left"@,
            m,
        )
    } else {
        let a = group_size_spec(lefts, true, hp);
        let b = group_size_spec(rights, true, hp);
        group_styles_left(lefts, true, hp, uid + "_l"@, "left"@) + (group_styles_right(
            rights,
            true,
            hp,
            uid + "_r"@ + "_r"@,
            "right"@,
        ) + flex_style_seq(uid + "_r"@ + "_l"@, hp, hp, clip(mw - a - b - hp * 2), "right"@, b)
            + band_style_seq(uid + "_r"@, mw - a, "left"@, a))
    }
}

/// The markup fragments of one soft row, from the flank sizes alone.
pub open spec fn soft_tree_divs_spec(uid: Seq<char>, l: int, r: int) -> Seq<Seq<char>> {
    if l == 0 && r == 0 {
        dsr_divs_seq(uid)
    } else if l == 0 {
        join_divs(group_divs_spec(uid + "_r"@, r), dsr_divs_seq(uid + "_l"@))
    } else if r == 0 {
        join_divs(group_divs_spec(uid + "_l"@, l), dsr_divs_seq(uid + "_r"@))
    } else {
        join_divs(
            group_divs_spec(uid + "_l"@, l),
            wrap_divs(
                uid + "_r"@,
                wrap_divs(
                    "row"@,
                    join_divs(
                        group_divs_spec(uid + "_r"@ + "_r"@, r),
                        dsr_divs_seq(uid + "_r"@ + "_l"@),
                    ),
                ),
            ),
        )
    }
}

/// The vertically padded classes of one soft row.
pub open spec fn soft_tree_pads_spec(uid: Seq<char>, l: int, r: int) -> Seq<Seq<char>> {
    if l == 0 && r == 0 {
        seq![uid]
    } else if l == 0 {
        group_pads_spec(uid + "_r"@, r) + seq![uid + "_l"@]
    } else if r == 0 {
        group_pads_spec(uid + "_l"@, l) + seq![uid + "_r"@]
    } else {
        group_pads_spec(uid + "_l"@, l) + (group_pads_spec(uid + "_r"@ + "_r"@, r) + seq![
            uid + "_r"@ + "_l"@,
        ])
    }
}

/// The insertion-point permutation of one soft row: the left group in input
/// order, then the right group (emitted before the flexible column it
/// visually follows), then the flexible slot itself.
pub open spec fn soft_args_spec(l: int, r: int) -> Seq<int> {
    if r == 0 {
        range_args(0, l + 1)
    } else {
        range_args(0, l) + range_args(l + 1, r) + range_args(l, 1)
    }
}

/// The same permutation as machine integers, as a compiled row stores it.
pub open spec fn soft_args_usize(l: int, r: int) -> Seq<usize> {
    Seq::new(soft_args_spec(l, r).len(), |i: int| soft_args_spec(l, r)[i] as usize)
}

/// The row-wide rule sharing vertical padding over every emitted class.
pub open spec fn vertical_rule_seq(hp: int) -> Seq<char> {
    "{ padding-top: "@ + decimal_seq((hp * 2) as nat) + "px; padding-bottom: "@ + decimal_seq(
        (hp * 2) as nat,
    ) + "px; }\n"@
}

/// The complete stored CSS text of one compiled soft row.
pub open spec fn soft_row_styles_spec(uid: Seq<char>, mw: int, hp: int, sub: Seq<Option<usize>>)
    -> Seq<char> {
    soft_tree_styles_spec(uid, mw, hp, sub) + selector_seq(
        soft_tree_pads_spec(uid, lefts_of(sub).len() as int, rights_of(sub).len() as int),
    ) + vertical_rule_seq(hp)
}

// ------------------------------------------------------------------
// Building one soft row plan
// ------------------------------------------------------------------

/// Builds the layout tree of one soft row: partitions the sub-widths at the
/// single flexible slot, resolves paddings and margins, and rejects a spec
/// whose flexible slot count is not one or whose minimum width is too small.
#[verifier::loop_isolation(false)]
#[verifier::rlimit(100)]
pub(crate) fn from_column(
    c: SoftColumn,
    min_width: usize,
    _percentage: usize,
    most_left: bool,
    most_right: bool,
    table: &TableConf,
) -> (r: Result<Phantom, TableError>)
    requires
        asked_of(c.subcolumns@) + 4 * (table.half_padding as int) * (c.subcolumns@.len() + 1)
            <= usize::MAX,
    ensures
        r is Ok <==> soft_fits(
            c.subcolumns@,
            table.half_padding as int,
            min_width as int,
            most_left,
            most_right,
        ),
        r matches Ok(ph) ==> ph_matches(
            ph,
            c.subcolumns@,
            table.half_padding as int,
            min_width as int,
            most_left,
            most_right,
        ) && ph_count(ph) == c.subcolumns@.len() && ph_sizes_ok(ph),
        unk_of(c.subcolumns@) != 1 ==> (r matches Err(e) && (e matches
        TableError::MustBeOneSoftColumn(t) && t@ == table.uid@)),
        unk_of(c.subcolumns@) == 1 && soft_too_long_spec(
            c.subcolumns@,
            table.half_padding as int,
            min_width as int,
            most_left,
            most_right,
        ) ==> (r matches Err(e) && (e matches TableError::SoftRowTooLong { table: t, min_width: m }
            && t@ == table.uid@ && m == min_width)),
{
    let hp = table.half_padding;
    let cols = c.subcolumns;
    let ghost gsub = cols@;
    let ghost ghp = hp as int;
    let ghost gfn = first_none(gsub);
    let n = cols.len();
    proof {
        lemma_first_none(gsub);
        lemma_prefix_nonneg(gsub);
        assert(4 * ghp <= 4 * ghp * (gsub.len() + 1)) by (nonlinear_arith)
            requires
                ghp >= 0,
                gsub.len() >= 0,
        ;
    }
    let mut left: Vec<usize> = Vec::new();
    let mut right: Vec<usize> = Vec::new();
    let mut unk: usize = 0;
    let mut i: usize = 0;
    while i < n
        invariant
            i <= n == gsub.len(),
            unk == unk_of(gsub.take(i as int)),
            left@.len() == if i as int <= gfn {
                i as int
            } else {
                gfn
            },
            forall|t: int| 0 <= t < left@.len() ==> (#[trigger] left@[t]) == gsub[t]->0,
            unk <= 1 ==> right@.len() == (if i as int > gfn {
                i - gfn - 1
            } else {
                0int
            }) && forall|t: int|
                0 <= t < right@.len() ==> (#[trigger] right@[t]) == gsub[gfn + 1 + t]->0,
            ws_sum(left@) + ws_sum(right@) == asked_of(gsub.take(i as int)),
            left@.len() + right@.len() + unk == i,
        decreases n - i,
    {
        proof {
            lemma_take_step(gsub, i + 1);
            lemma_prefix_le(gsub, i + 1);
            lemma_unk_first_none(gsub, i as int);
            lemma_unk_first_none(gsub, i + 1);
        }
        match cols[i] {
            Some(w) => {
                if unk == 0 {
                    proof {
                        lemma_ws_sum_push(left@, w);
                    }
                    left.push(w);
                } else {
                    proof {
                        lemma_ws_sum_push(right@, w);
                    }
                    right.push(w);
                }
            },
            None => {
                unk = unk + 1;
            },
        }
        i = i + 1;
    }
    proof {
        lemma_take_all(gsub);
    }
    if unk != 1 {
        return Err(TableError::MustBeOneSoftColumn(table.uid.clone()));
    }
    let ghost glefts = lefts_of(gsub);
    let ghost grights = rights_of(gsub);
    proof {
        lemma_unk_first_none(gsub, gsub.len() as int);
        assert(left@ =~= glefts);
        assert(right@ =~= grights);
        lemma_ws_sum_nonneg(glefts);
        lemma_ws_sum_nonneg(grights);
        let l = glefts.len() as int;
        let rr = grights.len() as int;
        assert(2 * ghp * l + ghp + (2 * ghp * rr + ghp) <= 4 * ghp * (gsub.len() + 1))
            by (nonlinear_arith)
            requires
                ghp >= 0,
                l >= 0,
                rr >= 0,
                l + rr < gsub.len() + 1,
        ;
        assert(2 * ghp * l + ghp <= 4 * ghp * (gsub.len() + 1)) by (nonlinear_arith)
            requires
                ghp >= 0,
                l >= 0,
                l < gsub.len() + 1,
        ;
        assert(2 * ghp * rr + ghp <= 4 * ghp * (gsub.len() + 1)) by (nonlinear_arith)
            requires
                ghp >= 0,
                rr >= 0,
                rr < gsub.len() + 1,
        ;
    }
    if left.len() == 0 {
        if right.len() == 0 {
            let el: usize = if most_left {
                2
            } else {
                1
            };
            let er: usize = if most_right {
                2
            } else {
                1
            };
            proof {
                assert(((er + el) as int) * ghp <= 4 * ghp) by (nonlinear_arith)
                    requires
                        ghp >= 0,
                        er + el <= 4,
                ;
                assert((el as int) * ghp <= 4 * ghp && (er as int) * ghp <= 4 * ghp)
                    by (nonlinear_arith)
                    requires
                        ghp >= 0,
                        el <= 2,
                        er <= 2,
                ;
            }
            let pad = (er + el) * hp;
            let mwv = if min_width >= pad {
                min_width - pad
            } else {
                0
            };
            Ok(
                Phantom {
                    fixed: Fixed::Empty,
                    soft: DivSoft::Real(
                        DivSoftReal {
                            min_width: mwv,
                            padding_left: el * hp,
                            padding_right: er * hp,
                            margin: None,
                        },
                    ),
                },
            )
        } else {
            let fixed = Fixed::right(right, most_right, hp);
            proof {
                let d = fixed->Right_0;
                lemma_df_size_right(d, grights, most_right, ghp);
            }
            let margin_right = fixed.size();
            if min_width <= margin_right {
                return Err(
                    TableError::SoftRowTooLong { table: table.uid.clone(), min_width },
                );
            }
            let el: usize = if most_left {
                2
            } else {
                1
            };
            proof {
                assert(((el + 1) as int) * ghp <= 4 * ghp && (el as int) * ghp <= 4 * ghp)
                    by (nonlinear_arith)
                    requires
                        ghp >= 0,
                        el <= 2,
                ;
            }
            let pad = (el + 1) * hp;
            let rest = min_width - margin_right;
            let mwv = if rest >= pad {
                rest - pad
            } else {
                0
            };
            Ok(
                Phantom {
                    fixed,
                    soft: DivSoft::Real(
                        DivSoftReal {
                            min_width: mwv,
                            margin: Some(margin_right),
                            padding_left: el * hp,
                            padding_right: hp,
                        },
                    ),
                },
            )
        }
    } else {
        if right.len() == 0 {
            let fixed = Fixed::left(left, most_left, hp);
            proof {
                let d = fixed->Left_0;
                lemma_df_size_left(d, glefts, most_left, ghp);
            }
            let margin_left = fixed.size();
            if min_width <= margin_left {
                return Err(
                    TableError::SoftRowTooLong { table: table.uid.clone(), min_width },
                );
            }
            let el: usize = if most_left {
                2
            } else {
                1
            };
            proof {
                assert(((el + 1) as int) * ghp <= 4 * ghp && (el as int) * ghp <= 4 * ghp)
                    by (nonlinear_arith)
                    requires
                        ghp >= 0,
                        el <= 2,
                ;
            }
            let pad = (el + 1) * hp;
            let rest = min_width - margin_left;
            let mwv = if rest >= pad {
                rest - pad
            } else {
                0
            };
            Ok(
                Phantom {
                    fixed,
                    soft: DivSoft::Real(
                        DivSoftReal {
                            min_width: mwv,
                            margin: Some(margin_left),
                            padding_left: hp,
                            padding_right: el * hp,
                        },
                    ),
                },
            )
        } else {
            let fixed_left = Fixed::left(left, most_left, hp);
            let fixed_right = Fixed::right(right, most_right, hp);
            proof {
                let dl = fixed_left->Left_0;
                lemma_df_size_left(dl, glefts, most_left, ghp);
                let dr = fixed_right->Right_0;
                lemma_df_size_right(dr, grights, most_right, ghp);
            }
            let margin_left = fixed_left.size();
            let margin_right = fixed_right.size();
            if min_width <= margin_right + margin_left {
                return Err(
                    TableError::SoftRowTooLong { table: table.uid.clone(), min_width },
                );
            }
            let rest = min_width - margin_left - margin_right;
            let pad2 = hp * 2;
            let mwv = if rest >= pad2 {
                rest - pad2
            } else {
                0
            };
            Ok(
                Phantom {
                    fixed: fixed_left,
                    soft: DivSoft::Phantom {
                        min_width: min_width - margin_left,
                        margin: Some(margin_left),
                        fixed: fixed_right,
                        soft: DivSoftReal {
                            min_width: mwv,
                            margin: Some(margin_right),
                            padding_left: hp,
                            padding_right: hp,
                        },
                    },
                },
            )
        }
    }
}

/// A layout tree built from a partitioned input emits exactly the text,
/// fragments, classes and permutation that the input determines.
#[verifier::rlimit(100)]
proof fn lemma_soft_bridge(ph: Phantom, sub: Seq<Option<usize>>, uid: Seq<char>, hp: int, mw: int)
    requires
        ph_matches(ph, sub, hp, mw, true, true),
        soft_fits(sub, hp, mw, true, true),
        ph_sizes_ok(ph),
        0 <= hp,
        2 * hp <= usize::MAX,
        mw <= usize::MAX,
    ensures
        ph_styles_seq(ph, uid) == soft_tree_styles_spec(uid, mw, hp, sub),
        ph_divs_seq(ph, uid) == soft_tree_divs_spec(
            uid,
            lefts_of(sub).len() as int,
            rights_of(sub).len() as int,
        ),
        ph_pads_seq(ph, uid) == soft_tree_pads_spec(
            uid,
            lefts_of(sub).len() as int,
            rights_of(sub).len() as int,
        ),
        ph_args_seq(ph, 0, ph_count(ph)) == soft_args_spec(
            lefts_of(sub).len() as int,
            rights_of(sub).len() as int,
        ),
        ph_count(ph) == lefts_of(sub).len() + rights_of(sub).len() + 1,
{
    let glefts = lefts_of(sub);
    let grights = rights_of(sub);
    let gl = glefts.len() as int;
    let gr = grights.len() as int;
    lemma_ws_sum_nonneg(glefts);
    lemma_ws_sum_nonneg(grights);
    if gl == 0 && gr == 0 {
        assert(ph_args_seq(ph, 0, ph_count(ph)) =~= soft_args_spec(gl, gr));
    } else if gl == 0 {
        let d = ph.fixed->Right_0;
        lemma_df_styles_right(d, grights, true, hp, uid + "_r"@, "right"@);
        assert(ph_divs_seq(ph, uid) =~~= soft_tree_divs_spec(uid, gl, gr));
        assert(ph_pads_seq(ph, uid) =~~= soft_tree_pads_spec(uid, gl, gr));
        assert(ph_args_seq(ph, 0, ph_count(ph)) =~= soft_args_spec(gl, gr));
    } else if gr == 0 {
        let d = ph.fixed->Left_0;
        lemma_df_styles_left(d, glefts, true, hp, uid + "_l"@, "left"@);
        assert(ph_divs_seq(ph, uid) =~~= soft_tree_divs_spec(uid, gl, gr));
        assert(ph_pads_seq(ph, uid) =~~= soft_tree_pads_spec(uid, gl, gr));
        assert(ph_args_seq(ph, 0, ph_count(ph)) =~= soft_args_spec(gl, gr));
    } else {
        let d = ph.fixed->Left_0;
        lemma_df_styles_left(d, glefts, true, hp, uid + "_l"@, "left"@);
        let d2 = ph.soft->Phantom_fixed->Right_0;
        lemma_df_styles_right(d2, grights, true, hp, uid + "_r"@ + "_r"@, "right"@);
        lemma_df_size_left(d, glefts, true, hp);
        lemma_df_size_right(d2, grights, true, hp);
        assert(ph_styles_seq(ph, uid) == soft_tree_styles_spec(uid, mw, hp, sub));
        assert(ph_divs_seq(ph, uid) =~~= soft_tree_divs_spec(uid, gl, gr));
        assert(ph_pads_seq(ph, uid) =~~= soft_tree_pads_spec(uid, gl, gr));
        assert(ph_args_seq(ph, 0, ph_count(ph)) =~= soft_args_spec(gl, gr));
    }
}

// ------------------------------------------------------------------
// The soft-row compiler
// ------------------------------------------------------------------

/// Compiles one soft row against `table` (of declared minimum width
/// `min_width`): builds the layout tree around the single flexible slot,
/// flattens it into CSS text, fragments and the value-index permutation, and
/// appends the compiled row. Rows with several column specs are out of scope.
#[verifier::loop_isolation(false)]
#[verifier::rlimit(100)]
pub(crate) fn create_soft(table: &mut TableConf, min_width: usize, columns: Vec<SoftColumn>) -> (r:
    Result<RowRef, TableError>)
    requires
        columns@.len() <= 1,
        columns@.len() == 1 ==> asked_of(columns@[0].subcolumns@) + 4 * (old(
            table,
        ).half_padding as int) * (columns@[0].subcolumns@.len() + 1) <= usize::MAX,
    ensures
        final(table).index == old(table).index,
        final(table).uid == old(table).uid,
        final(table).tp == old(table).tp,
        final(table).half_padding == old(table).half_padding,
        r is Err ==> final(table).rows@ == old(table).rows@,
        columns@.len() == 0 ==> (r matches Err(e) && (e matches TableError::EmptySoft(t) && t@
            == old(table).uid@)),
        columns@.len() == 1 ==> {
            let sub = columns@[0].subcolumns@;
            let hp = old(table).half_padding as int;
            let nl = lefts_of(sub).len() as int;
            let nr = rights_of(sub).len() as int;
            &&& (r is Ok <==> soft_fits(sub, hp, min_width as int, true, true))
            &&& (unk_of(sub) != 1 ==> (r matches Err(e) && (e matches
            TableError::MustBeOneSoftColumn(t) && t@ == old(table).uid@)))
            &&& (unk_of(sub) == 1 && soft_too_long_spec(sub, hp, min_width as int, true, true)
                ==> (r matches Err(e) && (e matches TableError::SoftRowTooLong {
                table: t,
                min_width: m,
            } && t@ == old(table).uid@ && m == min_width)))
            &&& (r matches Ok(h) ==> {
                &&& h.table_index() == old(table).index
                &&& h.row_index() == old(table).rows@.len()
                &&& final(table).rows@.len() == old(table).rows@.len() + 1
                &&& final(table).rows@.subrange(0, old(table).rows@.len() as int) == old(
                    table,
                ).rows@
                &&& final(table).rows@.last().styles@ == soft_row_styles_spec(
                    old(table).uid@,
                    min_width as int,
                    hp,
                    sub,
                )
                &&& views_of(final(table).rows@.last().divs@) == soft_tree_divs_spec(
                    old(table).uid@,
                    nl,
                    nr,
                )
                &&& final(table).rows@.last().divs@.len() == sub.len() + 1
                &&& (final(table).rows@.last().args matches Some(a) && args_match(
                    a@,
                    soft_args_spec(nl, nr),
                ))
            })
        },
{
    let ghost guid = old(table).uid@;
    let ghost ghp = old(table).half_padding as int;
    let mut columns = columns;
    let col = match columns.pop() {
        None => {
            return Err(TableError::EmptySoft(table.uid.clone()));
        },
        Some(col) => col,
    };
    let ghost gsub = col.subcolumns@;
    let ghost glefts = lefts_of(gsub);
    let ghost grights = rights_of(gsub);
    let ghost gl = glefts.len() as int;
    let ghost gr = grights.len() as int;
    proof {
        lemma_prefix_nonneg(gsub);
        assert(4 * ghp <= 4 * ghp * (gsub.len() + 1)) by (nonlinear_arith)
            requires
                ghp >= 0,
                gsub.len() >= 0,
        ;
        assert(2 * ghp <= 4 * ghp);
    }
    let sub_count = col.subcolumns.len();
    proof {
        assert(sub_count == gsub.len());
    }
    let ph = match from_column(col, min_width, 100, true, true, table) {
        Ok(p) => p,
        Err(e) => {
            return Err(e);
        },
    };
    let row_idx = table.rows.len();
    let cnt = ph.count();
    let e = ph.divs(0, cnt, table.uid.as_str());
    proof {
        lemma_soft_bridge(ph, gsub, guid, ghp, min_width as int);
    }
    let Emit { styles, pads, divs, args } = e;
    let mut styles = styles;
    let plen = pads.len();
    append_selector(&mut styles, &pads, 0, plen);
    proof {
        assert(pads@.subrange(0, plen as int) =~= pads@);
        assert(styles@ == soft_tree_styles_spec(guid, min_width as int, ghp, gsub) + selector_seq(
            soft_tree_pads_spec(guid, gl, gr),
        ));
    }
    let hp = table.half_padding;
    styles.append("{ padding-top: ");
    let p1 = decimal_str(hp * 2);
    styles.append(p1.as_str());
    styles.append("px; padding-bottom: ");
    let p2 = decimal_str(hp * 2);
    styles.append(p2.as_str());
    styles.append("px; }\n");
    proof {
        assert(styles@ =~= soft_row_styles_spec(guid, min_width as int, ghp, gsub));
    }
    let res = RowRef { table_idx: table.index, row_idx };
    table.rows.push(Row { styles, divs, args: Some(args) });
    proof {
        assert(final(table).rows@.subrange(0, old(table).rows@.len() as int) =~= old(table).rows@);
    }
    Ok(res)
}

// ------------------------------------------------------------------
// The registry: named tables and their compiled rows
// ------------------------------------------------------------------

/// Mathematical model of one compiled row.
#[verifier::ext_equal]
pub ghost struct RowModel {
    pub styles: Seq<char>,
    pub divs: Seq<Seq<char>>,
    pub args: Option<Seq<usize>>,
}

/// Mathematical model of one table: identifier, kind, declared width (total
/// for fixed tables, minimum for soft ones), padding unit, compiled rows.
#[verifier::ext_equal]
pub ghost struct TableModel {
    pub uid: Seq<char>,
    pub fixed: bool,
    pub width: int,
    pub hp: int,
    pub rows: Seq<RowModel>,
}

pub(crate) open spec fn row_model(r: Row) -> RowModel {
    RowModel {
        styles: r.styles@,
        divs: views_of(r.divs@),
        args: match r.args {
            Some(a) => Some(a@),
            None => None,
        },
    }
}

pub(crate) open spec fn table_model(t: TableConf) -> TableModel {
    TableModel {
        uid: t.uid@,
        fixed: t.tp is Fixed,
        width: match t.tp {
            TableType::Fixed(w) => w as int,
            TableType::Soft(m) => m as int,
        },
        hp: t.half_padding as int,
        rows: Seq::new(t.rows@.len(), |j: int| row_model(t.rows@[j])),
    }
}

/// The registry of named tables. Compiled rows are append-only and immutable.
#[derive(Debug)]
pub struct TableBuilder {
    tables: Vec<TableConf>,
}

impl View for TableBuilder {
    type V = Seq<TableModel>;

    closed spec fn view(&self) -> Seq<TableModel> {
        Seq::new(self.tables@.len(), |i: int| table_model(self.tables@[i]))
    }
}

impl TableBuilder {
    /// Every stored table carries its own registry index.
    pub closed spec fn wf(&self) -> bool {
        forall|i: int|
            0 <= i < self.tables@.len() ==> (#[trigger] self.tables@[i]).index == i
    }

    /// An empty registry.
    pub fn new() -> (r: TableBuilder)
        ensures
            r.wf(),
            r@ == Seq::<TableModel>::empty(),
    {
        let r = TableBuilder { tables: Vec::new() };
        proof {
            assert(r@ =~= Seq::<TableModel>::empty());
        }
        r
    }

    /// Registers a fixed-width table under `uid` and returns its handle.
    /// The padding unit starts at 2.
    pub fn table_fixed(&mut self, uid: &str, width: usize) -> (r: TableRef)
        requires
            old(self).wf(),
        ensures
            final(self).wf(),
            r.table_index() == old(self)@.len(),
            final(self)@ == old(self)@.push(
                TableModel {
                    uid: uid@,
                    fixed: true,
                    width: width as int,
                    hp: 2,
                    rows: Seq::empty(),
                },
            ),
    {
        let res = TableRef { table_idx: self.tables.len() };
        self.tables.push(
            TableConf {
                index: res.table_idx,
                uid: String::from_str(uid),
                tp: TableType::Fixed(width),
                half_padding: 2,
                rows: Vec::new(),
            },
        );
        proof {
            assert(final(self)@ =~~= old(self)@.push(
                TableModel {
                    uid: uid@,
                    fixed: true,
                    width: width as int,
                    hp: 2,
                    rows: Seq::empty(),
                },
            ));
        }
        res
    }

    /// Registers a soft table (declared minimum width) under `uid` and
    /// returns its handle. The padding unit starts at 2.
    pub fn table_soft(&mut self, uid: &str, min_width: usize) -> (r: TableRef)
        requires
            old(self).wf(),
        ensures
            final(self).wf(),
            r.table_index() == old(self)@.len(),
            final(self)@ == old(self)@.push(
                TableModel {
                    uid: uid@,
                    fixed: false,
                    width: min_width as int,
                    hp: 2,
                    rows: Seq::empty(),
                },
            ),
    {
        let res = TableRef { table_idx: self.tables.len() };
        self.tables.push(
            TableConf {
                index: res.table_idx,
                uid: String::from_str(uid),
                tp: TableType::Soft(min_width),
                half_padding: 2,
                rows: Vec::new(),
            },
        );
        proof {
            assert(final(self)@ =~~= old(self)@.push(
                TableModel {
                    uid: uid@,
                    fixed: false,
                    width: min_width as int,
                    hp: 2,
                    rows: Seq::empty(),
                },
            ));
        }
        res
    }

    /// Changes a table's padding unit; rejects a handle that does not resolve.
    pub fn with_half_padding(&mut self, table: TableRef, hp: usize) -> (r: Result<(), TableError>)
        requires
            old(self).wf(),
        ensures
            final(self).wf(),
            table.table_index() >= old(self)@.len() ==> (r matches Err(e) && (e matches
            TableError::UnknownTable(t) && t == table)) && final(self)@ == old(self)@,
            table.table_index() < old(self)@.len() ==> r is Ok && final(self)@ == old(self)@.update(
                table.table_index(),
                TableModel { hp: hp as int, ..old(self)@[table.table_index()] },
            ),
    {
        if self.tables.len() <= table.table_idx {
            return Err(TableError::UnknownTable(table));
        }
        self.tables[table.table_idx].half_padding = hp;
        proof {
            assert(final(self)@ =~~= old(self)@.update(
                table.table_index(),
                TableModel { hp: hp as int, ..old(self)@[table.table_index()] },
            ));
        }
        Ok(())
    }

    /// Compiles a fixed row on a fixed table: resolves every column width and
    /// appends the compiled row. Rejects an unknown handle, a soft table, and
    /// a row that does not fit the declared width.
    pub fn create_row_fixed(&mut self, table_ref: TableRef, columns: &[Option<usize>]) -> (r:
        Result<RowRef, TableError>)
        requires
            old(self).wf(),
            columns@.len() < usize::MAX,
            0 <= table_ref.table_index() < old(self)@.len() ==> fixed_need(
                columns@,
                old(self)@[table_ref.table_index()].hp,
            ) <= usize::MAX,
        ensures
            final(self).wf(),
            r is Err ==> final(self)@ == old(self)@,
            table_ref.table_index() >= old(self)@.len() ==> (r matches Err(e) && (e matches
            TableError::UnknownTable(t) && t == table_ref)),
            table_ref.table_index() < old(self)@.len() && !old(
                self,
            )@[table_ref.table_index()].fixed ==> (r matches Err(e) && (e matches
            TableError::FixedOnSoft(t) && t == table_ref)),
            table_ref.table_index() < old(self)@.len() && old(
                self,
            )@[table_ref.table_index()].fixed ==> {
                let tm = old(self)@[table_ref.table_index()];
                &&& (r is Ok <==> fixed_fits(tm.width, tm.hp, columns@))
                &&& (r matches Ok(h) ==> {
                    &&& h.table_index() == table_ref.table_index()
                    &&& h.row_index() == tm.rows.len()
                    &&& final(self)@ == old(self)@.update(
                        table_ref.table_index(),
                        TableModel {
                            rows: tm.rows.push(
                                RowModel {
                                    styles: fixed_styles_seq(
                                        tm.uid,
                                        tm.rows.len(),
                                        tm.width,
                                        tm.hp,
                                        columns@,
                                    ),
                                    divs: fixed_divs_seq(tm.uid, tm.rows.len(), columns@.len()),
                                    args: None,
                                },
                            ),
                            ..tm
                        },
                    )
                })
                &&& (r matches Err(e) ==> (e matches TableError::FixedRowTooLong {
                    table: t,
                    width: w,
                    pads: p,
                    asked: a,
                    unknown: u,
                } && t@ == tm.uid && w as int == tm.width && p == fixed_pads(
                    columns@.len() as int,
                    tm.hp,
                ) && a == asked_of(columns@) && u == unk_of(columns@)))
            },
    {
        if self.tables.len() <= table_ref.table_idx {
            return Err(TableError::UnknownTable(table_ref));
        }
        let table_idx = table_ref.table_idx;
        match self.tables[table_idx].tp {
            TableType::Fixed(width) => {
                let r = create_fixed(&mut self.tables[table_idx], width, columns);
                proof {
                    let ti = table_ref.table_index();
                    let tm = old(self)@[ti];
                    if r is Ok {
                        assert(final(self)@ =~~= old(self)@.update(
                            ti,
                            TableModel {
                                rows: tm.rows.push(
                                    RowModel {
                                        styles: fixed_styles_seq(
                                            tm.uid,
                                            tm.rows.len(),
                                            tm.width,
                                            tm.hp,
                                            columns@,
                                        ),
                                        divs: fixed_divs_seq(tm.uid, tm.rows.len(), columns@.len()),
                                        args: None,
                                    },
                                ),
                                ..tm
                            },
                        ));
                    } else {
                        assert(final(self)@ =~~= old(self)@);
                    }
                }
                r
            },
            TableType::Soft(_) => Err(TableError::FixedOnSoft(table_ref)),
        }
    }

    /// Compiles a soft row on a soft table: partitions the one column spec at
    /// its flexible slot and appends the compiled row. Rejects an unknown
    /// handle, a fixed table, an empty spec list, a spec whose flexible slot
    /// count is not one, and a minimum width that does not exceed the fixed
    /// flanks. Rows with several column specs are out of scope.
    pub fn create_row_soft(&mut self, table_ref: TableRef, columns: Vec<SoftColumn>) -> (r: Result<
        RowRef,
        TableError,
    >)
        requires
            old(self).wf(),
            columns@.len() <= 1,
            0 <= table_ref.table_index() < old(self)@.len() && columns@.len() == 1 ==> asked_of(
                columns@[0].subcolumns@,
            ) + 4 * old(self)@[table_ref.table_index()].hp * (columns@[0].subcolumns@.len() + 1)
                <= usize::MAX,
        ensures
            final(self).wf(),
            r is Err ==> final(self)@ == old(self)@,
            table_ref.table_index() >= old(self)@.len() ==> (r matches Err(e) && (e matches
            TableError::UnknownTable(t) && t == table_ref)),
            table_ref.table_index() < old(self)@.len() && old(
                self,
            )@[table_ref.table_index()].fixed ==> (r matches Err(e) && (e matches
            TableError::SoftOnFixed(t) && t == table_ref)),
            table_ref.table_index() < old(self)@.len() && !old(
                self,
            )@[table_ref.table_index()].fixed ==> {
                let tm = old(self)@[table_ref.table_index()];
                &&& (columns@.len() == 0 ==> (r matches Err(e) && (e matches TableError::EmptySoft(
                    t,
                ) && t@ == tm.uid)))
                &&& (columns@.len() == 1 ==> {
                    let sub = columns@[0].subcolumns@;
                    let nl = lefts_of(sub).len() as int;
                    let nr = rights_of(sub).len() as int;
                    &&& (r is Ok <==> soft_fits(sub, tm.hp, tm.width, true, true))
                    &&& (unk_of(sub) != 1 ==> (r matches Err(e) && (e matches
                    TableError::MustBeOneSoftColumn(t) && t@ == tm.uid)))
                    &&& (unk_of(sub) == 1 && soft_too_long_spec(sub, tm.hp, tm.width, true, true)
                        ==> (r matches Err(e) && (e matches TableError::SoftRowTooLong {
                        table: t,
                        min_width: m,
                    } && t@ == tm.uid && m as int == tm.width)))
                    &&& (r matches Ok(h) ==> {
                        &&& h.table_index() == table_ref.table_index()
                        &&& h.row_index() == tm.rows.len()
                        &&& final(self)@ == old(self)@.update(
                            table_ref.table_index(),
                            TableModel {
                                rows: tm.rows.push(
                                    RowModel {
                                        styles: soft_row_styles_spec(tm.uid, tm.width, tm.hp, sub),
                                        divs: soft_tree_divs_spec(tm.uid, nl, nr),
                                        args: Some(soft_args_usize(nl, nr)),
                                    },
                                ),
                                ..tm
                            },
                        )
                    })
                })
            },
    {
        if self.tables.len() <= table_ref.table_idx {
            return Err(TableError::UnknownTable(table_ref));
        }
        let ghost gcols = columns@;
        let table_idx = table_ref.table_idx;
        match self.tables[table_idx].tp {
            TableType::Fixed(_) => Err(TableError::SoftOnFixed(table_ref)),
            TableType::Soft(min_width) => {
                let r = create_soft(&mut self.tables[table_idx], min_width, columns);
                proof {
                    let ti = table_ref.table_index();
                    let tm = old(self)@[ti];
                    if r is Ok {
                        let sub = gcols[0].subcolumns@;
                        let nl = lefts_of(sub).len() as int;
                        let nr = rights_of(sub).len() as int;
                        let stored = final(self).tables@[ti].rows@.last().args->0;
                        assert(stored@ =~= soft_args_usize(nl, nr));
                        assert(final(self)@ =~~= old(self)@.update(
                            ti,
                            TableModel {
                                rows: tm.rows.push(
                                    RowModel {
                                        styles: soft_row_styles_spec(tm.uid, tm.width, tm.hp, sub),
                                        divs: soft_tree_divs_spec(tm.uid, nl, nr),
                                        args: Some(soft_args_usize(nl, nr)),
                                    },
                                ),
                                ..tm
                            },
                        ));
                    } else {
                        assert(final(self)@ =~~= old(self)@);
                    }
                }
                r
            },
        }
    }
}

// ------------------------------------------------------------------
// The drawer: which rows a render pass used
// ------------------------------------------------------------------

/// Strictly ascending (table index, row index) order.
pub open spec fn sorted_row_refs(s: Seq<RowRef>) -> bool {
    forall|i: int, j: int| 0 <= i < j < s.len() ==> (#[trigger] s[i]).before(#[trigger] s[j])
}

/// An ordered, deduplicated set of row handles, scoped to one render pass:
/// rendering marks a row used, and only used rows contribute CSS.
#[derive(Debug)]
pub struct TableDrawer {
    row_set: Vec<RowRef>,
}

impl View for TableDrawer {
    type V = Seq<RowRef>;

    closed spec fn view(&self) -> Seq<RowRef> {
        self.row_set@
    }
}

fn before_exec(a: &RowRef, b: &RowRef) -> (r: bool)
    ensures
        r == a.before(*b),
{
    a.table_idx < b.table_idx || (a.table_idx == b.table_idx && a.row_idx < b.row_idx)
}

impl TableDrawer {
    /// The handles stay strictly ascending, so each appears once.
    pub open spec fn wf(&self) -> bool {
        sorted_row_refs(self@)
    }

    /// An empty drawer for a fresh render pass.
    pub fn new() -> (r: TableDrawer)
        ensures
            r.wf(),
            r@ == Seq::<RowRef>::empty(),
    {
        TableDrawer { row_set: Vec::new() }
    }

    /// Records a rendered row; recording it again changes nothing.
    #[verifier::loop_isolation(false)]
    pub(crate) fn insert_row(&mut self, rr: RowRef)
        requires
            old(self).wf(),
        ensures
            final(self).wf(),
            final(self)@.contains(rr),
            forall|x: RowRef|
                #[trigger] final(self)@.contains(x) <==> old(self)@.contains(x) || x == rr,
            old(self)@.contains(rr) ==> final(self)@ == old(self)@,
    {
        let n = self.row_set.len();
        let mut i: usize = 0;
        while i < n && before_exec(&self.row_set[i], &rr)
            invariant
                i <= n,
                forall|t: int| 0 <= t < i ==> (#[trigger] self@[t]).before(rr),
            decreases n - i,
        {
            i = i + 1;
        }
        if i < n && self.row_set[i] == rr {
            proof {
                assert(old(self)@.contains(rr));
            }
            return ;
        }
        proof {
            if old(self)@.contains(rr) {
                let j = choose|j: int| 0 <= j < old(self)@.len() && old(self)@[j] == rr;
                if j < i {
                    assert(old(self)@[j].before(rr));
                } else {
                    assert(i < n);
                    assert(j > i);
                    assert(old(self)@[i as int].before(old(self)@[j]));
                }
                assert(false);
            }
        }
        self.row_set.insert(i, rr);
        proof {
            let s = final(self)@;
            let o = old(self)@;
            assert forall|a: int, b: int| 0 <= a < b < s.len() implies (#[trigger] s[a]).before(
                #[trigger] s[b],
            ) by {
                if a < i && b == i {
                } else if a == i && b > i {
                    assert(s[b] == o[b - 1]);
                    assert(!o[i as int].before(rr));
                    assert(o[i as int] != rr);
                    if b - 1 > i {
                        assert(o[i as int].before(o[b - 1]));
                    }
                } else if a < i && b > i {
                    assert(s[a] == o[a] && s[b] == o[b - 1]);
                } else if a > i && b > i {
                    assert(s[a] == o[a - 1] && s[b] == o[b - 1]);
                }
            }
            assert(s[i as int] == rr);
            assert forall|x: RowRef| #[trigger] s.contains(x) <==> o.contains(x) || x == rr by {
                if s.contains(x) {
                    let j = choose|j: int| 0 <= j < s.len() && s[j] == x;
                    if j < i {
                        assert(o[j] == x);
                        assert(o.contains(x));
                    } else if j == i {
                    } else {
                        assert(o[j - 1] == x);
                        assert(o.contains(x));
                    }
                }
                if o.contains(x) {
                    let j = choose|j: int| 0 <= j < o.len() && o[j] == x;
                    if j < i {
                        assert(s[j] == x);
                    } else {
                        assert(s[j + 1] == x);
                    }
                    assert(s.contains(x));
                }
                if x == rr {
                    assert(s.contains(x));
                }
            }
        }
    }
}

impl Default for TableDrawer {
    /// An empty drawer.
    fn default() -> (r: TableDrawer)
        ensures
            r.wf(),
            r@ == Seq::<RowRef>::empty(),
    {
        TableDrawer { row_set: Vec::new() }
    }
}

// ------------------------------------------------------------------
// Render-time filling and usage-scoped style emission
// ------------------------------------------------------------------

/// What fills a slot when the caller supplied no value for it.
pub open spec fn placeholder_seq() -> Seq<char> {
    "&nbsp;"@
}

/// The caller values padded on the right with placeholders up to `cnt`.
pub open spec fn pad_values(vals: Seq<Seq<char>>, cnt: int) -> Seq<Seq<char>> {
    if vals.len() < cnt {
        vals + Seq::new((cnt - vals.len()) as nat, |i: int| placeholder_seq())
    } else {
        vals
    }
}

/// The value filling insertion point `i`: the one at that position, or the
/// one the permutation selects; nothing when the permutation points outside
/// the padded values.
pub open spec fn slot_value(args: Option<Seq<usize>>, padded: Seq<Seq<char>>, i: int) -> Seq<char> {
    match args {
        None => if 0 <= i < padded.len() {
            padded[i]
        } else {
            Seq::empty()
        },
        Some(a) => if 0 <= i < a.len() && a[i] < padded.len() {
            padded[a[i] as int]
        } else {
            Seq::empty()
        },
    }
}

/// The first `k` fragments interleaved with their slot values (no value after
/// the final fragment).
pub open spec fn render_parts(
    divs: Seq<Seq<char>>,
    args: Option<Seq<usize>>,
    padded: Seq<Seq<char>>,
    k: int,
) -> Seq<char>
    decreases k,
{
    if k <= 0 {
        Seq::empty()
    } else {
        render_parts(divs, args, padded, k - 1) + divs[k - 1] + (if k - 1 < divs.len() - 1 {
            slot_value(args, padded, k - 1)
        } else {
            Seq::empty()
        })
    }
}

/// The full rendered text of one row: its fragments with the caller values
/// interleaved, wrapped in one block carrying `class`. A row with zero
/// insertion points (at most one fragment) renders as nothing.
pub open spec fn render_spec(
    divs: Seq<Seq<char>>,
    args: Option<Seq<usize>>,
    class: Seq<char>,
    values: Seq<Seq<char>>,
) -> Seq<char> {
    if divs.len() <= 1 {
        Seq::empty()
    } else {
        "<div class='"@ + class + "'>\n"@ + render_parts(
            divs,
            args,
            pad_values(values, divs.len() - 1),
            divs.len() as int,
        ) + "</div>"@
    }
}

/// The stored CSS of every resolving handle in `refs`, in order; handles that
/// no longer resolve are skipped.
pub open spec fn styles_concat_spec(tables: Seq<TableModel>, refs: Seq<RowRef>) -> Seq<char>
    decreases refs.len(),
{
    if refs.len() == 0 {
        Seq::empty()
    } else {
        styles_concat_spec(tables, refs.drop_last()) + {
            let rr = refs.last();
            if 0 <= rr.table_index() < tables.len() && 0 <= rr.row_index() < tables[
                rr.table_index()
            ].rows.len() {
                tables[rr.table_index()].rows[rr.row_index()].styles
            } else {
                Seq::empty()
            }
        }
    }
}

impl TableBuilder {
    /// Whether a row handle resolves against this registry.
    pub open spec fn resolves(&self, rr: RowRef) -> bool {
        0 <= rr.table_index() < self@.len() && 0 <= rr.row_index() < self@[rr.table_index()].rows.len()
    }

    /// Fills a compiled row with caller values: marks the row used in the
    /// drawer, pads missing trailing values with a placeholder, ignores
    /// excess ones, and applies the stored permutation where there is one.
    /// A row with zero insertion points yields an empty result. Never
    /// mutates the compiled row.
    #[verifier::loop_isolation(false)]
    #[verifier::rlimit(100)]
    pub fn row(&self, row_ref: RowRef, class: &str, values: Vec<String>, drawer: &mut TableDrawer)
        -> (r: Result<String, TableError>)
        requires
            old(drawer).wf(),
        ensures
            final(drawer).wf(),
            !self.resolves(row_ref) ==> (r matches Err(e) && (e matches TableError::UnknownRow(h)
                && h == row_ref)) && final(drawer)@ == old(drawer)@,
            self.resolves(row_ref) ==> {
                &&& final(drawer)@.contains(row_ref)
                &&& forall|x: RowRef|
                    #[trigger] final(drawer)@.contains(x) <==> old(drawer)@.contains(x) || x
                        == row_ref
                &&& (old(drawer)@.contains(row_ref) ==> final(drawer)@ == old(drawer)@)
                &&& (r matches Ok(s) && s@ == render_spec(
                    self@[row_ref.table_index()].rows[row_ref.row_index()].divs,
                    self@[row_ref.table_index()].rows[row_ref.row_index()].args,
                    class@,
                    views_of(values@),
                ))
            },
    {
        if self.tables.len() <= row_ref.table_idx {
            return Err(TableError::UnknownRow(row_ref));
        }
        if self.tables[row_ref.table_idx].rows.len() <= row_ref.row_idx {
            return Err(TableError::UnknownRow(row_ref));
        }
        drawer.insert_row(row_ref);
        let row = &self.tables[row_ref.table_idx].rows[row_ref.row_idx];
        let ghost gmodel = row_model(*row);
        proof {
            assert(self@[row_ref.table_index()].rows[row_ref.row_index()] == gmodel);
        }
        if row.divs.len() <= 1 {
            return Ok(String::new());
        }
        let cnt = row.divs.len() - 1;
        let ghost gviews = views_of(values@);
        let mut values = values;
        while values.len() < cnt
            invariant
                values@.len() >= gviews.len(),
                forall|t: int| 0 <= t < gviews.len() ==> (#[trigger] values@[t])@ == gviews[t],
                forall|t: int|
                    gviews.len() <= t < values@.len() ==> (#[trigger] values@[t])@
                        == placeholder_seq(),
                values@.len() <= cnt || values@.len() == gviews.len(),
            decreases cnt - values@.len(),
        {
            values.push(String::from_str("&nbsp;"));
        }
        let ghost gpadded = pad_values(gviews, cnt as int);
        proof {
            assert(views_of(values@) =~~= gpadded);
        }
        let mut res = String::from_str("<div class='");
        res.append(class);
        res.append("'>\n");
        let ghost base = "<div class='"@ + class@ + "'>\n"@;
        let nd = row.divs.len();
        let mut i: usize = 0;
        while i < nd
            invariant
                i <= nd,
                res@ == base + render_parts(gmodel.divs, gmodel.args, gpadded, i as int),
            decreases nd - i,
        {
            res.append(row.divs[i].as_str());
            if i + 1 < nd {
                match &row.args {
                    None => {
                        if i < values.len() {
                            res.append(values[i].as_str());
                        }
                    },
                    Some(args) => {
                        if i < args.len() {
                            let a = args[i];
                            if a < values.len() {
                                res.append(values[a].as_str());
                            }
                        }
                    },
                }
            }
            proof {
                assert(res@ =~= base + render_parts(gmodel.divs, gmodel.args, gpadded, i + 1));
            }
            i = i + 1;
        }
        res.append("</div>");
        proof {
            assert(res@ =~= render_spec(gmodel.divs, gmodel.args, class@, gviews));
        }
        Ok(res)
    }

    /// Emits the stored CSS of exactly the rows recorded in the drawer, in
    /// ascending handle order; handles that no longer resolve are skipped.
    #[verifier::loop_isolation(false)]
    pub fn styles(&self, drawer: &TableDrawer) -> (r: String)
        ensures
            r@ == styles_concat_spec(self@, drawer@),
    {
        let mut res = String::new();
        let n = drawer.row_set.len();
        let mut i: usize = 0;
        proof {
            assert(drawer@.take(0) =~= Seq::<RowRef>::empty());
            assert(res@ =~= styles_concat_spec(self@, drawer@.take(0)));
        }
        while i < n
            invariant
                i <= n == drawer@.len(),
                res@ == styles_concat_spec(self@, drawer@.take(i as int)),
            decreases n - i,
        {
            let rr = drawer.row_set[i];
            if self.tables.len() <= rr.table_idx {
            } else if self.tables[rr.table_idx].rows.len() <= rr.row_idx {
            } else {
                let row = &self.tables[rr.table_idx].rows[rr.row_idx];
                proof {
                    assert(self@[rr.table_index()].rows[rr.row_index()] == row_model(*row));
                }
                res.append(row.styles.as_str());
            }
            proof {
                assert(drawer@.take(i + 1).drop_last() =~= drawer@.take(i as int));
                assert(drawer@.take(i + 1).last() == drawer@[i as int]);
                assert(res@ =~= styles_concat_spec(self@, drawer@.take(i + 1)));
            }
            i = i + 1;
        }
        proof {
            assert(drawer@.take(n as int) =~= drawer@);
        }
        res
    }
}

// ------------------------------------------------------------------
// Laws of the compiler
// ------------------------------------------------------------------

/// For every successfully compiled fixed row, the sum of the resolved column
/// widths plus the total padding `(n + 1) * 2 * half_padding` equals the
/// declared table width exactly.
pub proof fn lemma_fixed_widths_exact(width: int, hp: int, cols: Seq<Option<usize>>)
    requires
        fixed_fits(width, hp, cols),
    ensures
        resolved_sum(width, hp, cols, cols.len() as int) + fixed_pads(cols.len() as int, hp)
            == width,
{
    lemma_prefix_nonneg(cols);
    if unk_of(cols) > 0 {
        lemma_resolved_total(width, hp, cols);
    } else {
        lemma_resolved_sum_all_asked(width, hp, cols, cols.len() as int);
        lemma_take_all(cols);
    }
}

/// `FixedRowTooLong` comes exactly when the declared width is below the
/// padding plus the known widths plus one unit per auto column; equality
/// compiles. (With no auto column and a width above that bound the row is
/// also rejected, since nothing can absorb the excess.)
pub proof fn lemma_fixed_row_error_iff(width: int, hp: int, cols: Seq<Option<usize>>)
    requires
        unk_of(cols) > 0 || width <= fixed_pads(cols.len() as int, hp) + asked_of(cols),
    ensures
        fixed_fits(width, hp, cols) <==> width >= fixed_need(cols, hp),
{
}

/// For every successfully compiled soft row, the reserved fixed width of both
/// flanks together is strictly below the declared minimum width. (A row with
/// no fixed sub-column reserves nothing, so there the declared width only has
/// to be positive.)
pub proof fn lemma_soft_reserved_below_min(sub: Seq<Option<usize>>, hp: int, mw: int)
    requires
        soft_fits(sub, hp, mw, true, true),
        hp >= 0,
        lefts_of(sub).len() + rights_of(sub).len() > 0 || mw > 0,
    ensures
        group_size_spec(lefts_of(sub), true, hp) + group_size_spec(rights_of(sub), true, hp) < mw,
{
}

/// A soft row compiles only with exactly one flexible slot: zero or several
/// absent entries are always rejected.
pub proof fn lemma_flex_slot_count(sub: Seq<Option<usize>>, hp: int, mw: int)
    ensures
        soft_fits(sub, hp, mw, true, true) ==> unk_of(sub) == 1,
        unk_of(sub) != 1 ==> !soft_fits(sub, hp, mw, true, true),
{
}

/// The stored permutation of a soft row names every insertion point's value
/// exactly once, each index within the row's own value count: rendering fills
/// every slot.
pub proof fn lemma_soft_args_complete(l: int, r: int)
    requires
        l >= 0,
        r >= 0,
    ensures
        soft_args_spec(l, r).len() == l + r + 1,
        forall|i: int| 0 <= i < l + r + 1 ==> 0 <= #[trigger] soft_args_spec(l, r)[i] < l + r + 1,
        forall|i: int, j: int|
            0 <= i < j < l + r + 1 ==> soft_args_spec(l, r)[i] != soft_args_spec(l, r)[j],
{
}

/// With the padded values at hand, a compiled soft row's permutation fills
/// every insertion point with a padded value: none stays empty.
pub proof fn lemma_soft_render_fills_every_slot(l: int, r: int, padded: Seq<Seq<char>>, i: int)
    requires
        l >= 0,
        r >= 0,
        l + r + 1 <= usize::MAX,
        padded.len() == l + r + 1,
        0 <= i < l + r + 1,
    ensures
        slot_value(Some(soft_args_usize(l, r)), padded, i) == padded[soft_args_spec(l, r)[i]],
{
    lemma_soft_args_complete(l, r);
    assert(soft_args_usize(l, r)[i] == soft_args_spec(l, r)[i] as usize);
    assert(0 <= soft_args_spec(l, r)[i] < l + r + 1);
    assert(soft_args_usize(l, r)[i] as int == soft_args_spec(l, r)[i]);
}

proof fn lemma_render_parts_agree(
    divs: Seq<Seq<char>>,
    args: Option<Seq<usize>>,
    p1: Seq<Seq<char>>,
    p2: Seq<Seq<char>>,
    k: int,
)
    requires
        forall|i: int| 0 <= i < divs.len() - 1 ==> slot_value(args, p1, i) == slot_value(args, p2, i),
        k <= divs.len(),
    ensures
        render_parts(divs, args, p1, k) == render_parts(divs, args, p2, k),
    decreases k,
{
    if k > 0 {
        lemma_render_parts_agree(divs, args, p1, p2, k - 1);
    }
}

/// Excess caller values beyond the row's insertion points change nothing:
/// rendering with more values equals rendering with exactly that many. This
/// holds for a row without a permutation, and for one whose stored
/// permutation points only at real slots — which every compiled row's does.
pub proof fn lemma_render_excess_ignored(
    divs: Seq<Seq<char>>,
    args: Option<Seq<usize>>,
    class: Seq<char>,
    values: Seq<Seq<char>>,
)
    requires
        values.len() >= divs.len() - 1,
        args matches Some(a) ==> forall|i: int|
            0 <= i < divs.len() - 1 && i < a.len() ==> ((#[trigger] a[i]) as int) < divs.len() - 1,
    ensures
        render_spec(divs, args, class, values) == render_spec(
            divs,
            args,
            class,
            values.take(divs.len() - 1),
        ),
{
    if divs.len() > 1 {
        let cnt = divs.len() - 1;
        assert forall|i: int| 0 <= i < divs.len() - 1 implies slot_value(args, values, i)
            == slot_value(args, values.take(cnt), i) by {
            match args {
                None => {},
                Some(a) => {
                    if 0 <= i < a.len() {
                        assert((a[i] as int) < cnt);
                    }
                },
            }
        }
        lemma_render_parts_agree(divs, args, values, values.take(cnt), divs.len() as int);
    }
}

/// Missing trailing caller values render exactly as the placeholder: filling
/// a row with too few values equals filling it with the padded list.
pub proof fn lemma_render_missing_padded(
    divs: Seq<Seq<char>>,
    args: Option<Seq<usize>>,
    class: Seq<char>,
    values: Seq<Seq<char>>,
)
    requires
        divs.len() > 0,
    ensures
        render_spec(divs, args, class, values) == render_spec(
            divs,
            args,
            class,
            pad_values(values, divs.len() - 1),
        ),
{
    let cnt = divs.len() - 1;
    assert(pad_values(pad_values(values, cnt), cnt) == pad_values(values, cnt));
}

/// Two ordered deduplicated drawers holding the same rows are equal.
pub proof fn lemma_sorted_unique_extensional(a: Seq<RowRef>, b: Seq<RowRef>)
    requires
        sorted_row_refs(a),
        sorted_row_refs(b),
        forall|x: RowRef| #[trigger] a.contains(x) <==> b.contains(x),
    ensures
        a == b,
    decreases a.len(),
{
    if a.len() == 0 {
        if b.len() > 0 {
            assert(b.contains(b[0]));
            assert(a.contains(b[0]));
        }
        assert(a =~= b);
    } else {
        let la = a.last();
        assert(a.contains(la));
        assert(b.contains(la));
        assert(b.len() > 0);
        let lb = b.last();
        assert(b.contains(lb));
        assert(a.contains(lb));
        let ja = choose|j: int| 0 <= j < a.len() && a[j] == lb;
        let jb = choose|j: int| 0 <= j < b.len() && b[j] == la;
        if ja < a.len() - 1 {
            assert(a[ja].before(a.last()));
        }
        if jb < b.len() - 1 {
            assert(b[jb].before(b.last()));
        }
        assert(la == lb);
        assert forall|x: RowRef| #[trigger] a.drop_last().contains(x) <==> b.drop_last().contains(
            x,
        ) by {
            if a.drop_last().contains(x) {
                let j = choose|j: int| 0 <= j < a.len() - 1 && a[j] == x;
                assert(a[j].before(la));
                assert(a.contains(x));
                assert(b.contains(x));
                let j2 = choose|j2: int| 0 <= j2 < b.len() && b[j2] == x;
                assert(j2 < b.len() - 1);
                assert(b.drop_last()[j2] == x);
            }
            if b.drop_last().contains(x) {
                let j = choose|j: int| 0 <= j < b.len() - 1 && b[j] == x;
                assert(b[j].before(lb));
                assert(b.contains(x));
                assert(a.contains(x));
                let j2 = choose|j2: int| 0 <= j2 < a.len() && a[j2] == x;
                assert(j2 < a.len() - 1);
                assert(a.drop_last()[j2] == x);
            }
        }
        assert(sorted_row_refs(a.drop_last()));
        assert(sorted_row_refs(b.drop_last()));
        lemma_sorted_unique_extensional(a.drop_last(), b.drop_last());
        assert(a =~= a.drop_last().push(la));
        assert(b =~= b.drop_last().push(lb));
    }
}

/// The emitted CSS of a pass depends only on which rows it used, never on the
/// order they were rendered: two drawers recording the same rows emit the
/// same styles.
pub proof fn lemma_styles_order_independent(
    tables: Seq<TableModel>,
    d1: Seq<RowRef>,
    d2: Seq<RowRef>,
)
    requires
        sorted_row_refs(d1),
        sorted_row_refs(d2),
        forall|x: RowRef| #[trigger] d1.contains(x) <==> d2.contains(x),
    ensures
        styles_concat_spec(tables, d1) == styles_concat_spec(tables, d2),
{
    lemma_sorted_unique_extensional(d1, d2);
}

} // verus!
