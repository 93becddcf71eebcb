//! Expressions in exact arithmetic.
//!
//! Elements are read as real numbers: sums are sums, products are products, and an inner
//! product adds up what its pairs multiply to. Functions that the reals do not give, such as
//! the exponential, are whatever they are.

pub mod vectors;

use vstd::prelude::*;

use super::algebra::{
    product, row_apply, row_of, row_totals, total, transpose, transpose_batches, zip_by_rows, Term,
};
use super::arith::{lemma_position_in_range, lemma_row_col};
use super::device::launches::{
    law_paired_reductions_fold_their_pairs, law_reductions_fold_their_items,
};
use super::device::reduction::{fold, monoid};
use super::meaning::{lemma_numbers, number, Reading};
use super::ops::{BinaryFn, InitFn, MapFn, RowFn};
use super::scalar::{Scalar, F32};
use crate::net::activation::Activation;

verus! {

/// A number, or what lies below all numbers.
pub ghost struct Quantity {
    pub value: real,
    /// Whether this lies below all numbers.
    pub lowest: bool,
}

/// A number.
pub open spec fn plain(value: real) -> Quantity {
    Quantity { value, lowest: false }
}

/// The numbers of quantities.
pub open spec fn numbers(a: Seq<Quantity>) -> Seq<real> {
    Seq::new(a.len(), |k: int| a[k].value)
}

/// The first values of a function of an index, added up.
pub open spec fn sum(n: nat, f: spec_fn(int) -> real) -> real
    decreases n,
{
    if n == 0 {
        0int as real
    } else {
        sum((n - 1) as nat, f) + f(n - 1)
    }
}

/// The functions that exact arithmetic takes as given.
pub ghost struct Exact {
    pub letters: spec_fn(InitFn, int) -> real,
    /// What was brought to the host.
    pub downloaded: spec_fn(usize) -> real,
    pub inverse_root: spec_fn(usize) -> real,
    pub power: spec_fn(real, real) -> real,
    pub exp: spec_fn(real) -> real,
    pub sigmoid: spec_fn(real) -> real,
    pub softplus: spec_fn(real) -> real,
    pub gelu: spec_fn(real) -> real,
    pub gelu_slope: spec_fn(real) -> real,
    /// By what a normalisation multiplies a row.
    pub factor: spec_fn(RowFn, Seq<real>) -> real,
    pub rotated: spec_fn(int, Seq<real>, int) -> real,
    pub row_gradient: spec_fn(RowFn, Seq<real>, Seq<real>, int) -> real,
    pub custom_map: spec_fn(u32, real) -> real,
    pub custom_pair: spec_fn(u32, real, real) -> real,
}

impl Exact {
    /// The number of a scalar.
    pub open spec fn scalar(self, s: Scalar) -> real
        decreases s,
    {
        match s {
            Scalar::Literal(v) => number(v),
            Scalar::Count(n) => n as int as real,
            Scalar::Reciprocal(n) => (1int as real) / (n as int as real),
            Scalar::InverseRoot(n) => (self.inverse_root)(n),
            Scalar::Downloaded(n) => (self.downloaded)(n),
            Scalar::Sum(a, b) => self.scalar(*a) + self.scalar(*b),
            Scalar::Difference(a, b) => self.scalar(*a) - self.scalar(*b),
            Scalar::Product(a, b) => self.scalar(*a) * self.scalar(*b),
            Scalar::Quotient(a, b) => self.scalar(*a) / self.scalar(*b),
            Scalar::Power(a, b) => (self.power)(self.scalar(*a), self.scalar(*b)),
        }
    }

    /// An activation.
    pub open spec fn activation(self, f: Activation, x: real) -> real {
        match f {
            Activation::Identity => x,
            Activation::Relu => if x > 0int as real {
                x
            } else {
                0int as real
            },
            Activation::Sigmoid => (self.sigmoid)(x),
            Activation::Silu => x * (self.sigmoid)(x),
            Activation::Gelu => (self.gelu)(x),
        }
    }

    /// The derivative of an activation.
    pub open spec fn slope(self, f: Activation, x: real) -> real {
        let p = (self.sigmoid)(x);
        let q = (1int as real) - p;
        match f {
            Activation::Identity => 1int as real,
            Activation::Relu => if x > 0int as real {
                1int as real
            } else {
                0int as real
            },
            Activation::Sigmoid => p * q,
            Activation::Silu => p + x * (p * q),
            Activation::Gelu => (self.gelu_slope)(x),
        }
    }

    /// A function of one number.
    pub open spec fn applied(self, f: MapFn, x: real) -> real {
        match f {
            MapFn::Identity => x,
            MapFn::Scale(s) => x * self.scalar(s),
            MapFn::Shift(s) => x + self.scalar(s),
            MapFn::ExpShifted(s) => (self.exp)(x - self.scalar(s)),
            MapFn::Threshold(v) => if x >= number(v) {
                1int as real
            } else {
                0int as real
            },
            MapFn::Sigmoid => (self.sigmoid)(x),
            MapFn::Activate(a) => self.activation(a, x),
            MapFn::Slope(a) => self.slope(a, x),
            MapFn::HalfSquare => x * x / (2int as real),
            MapFn::Softplus => (self.softplus)(x),
            MapFn::WeightedSoftplusOfNegative(s) => self.scalar(s) * (self.softplus)(
                (0int as real) - x,
            ),
            MapFn::Custom(k) => (self.custom_map)(k, x),
        }
    }

    /// A function of two numbers.
    pub open spec fn combined(self, f: BinaryFn, a: real, b: real) -> real {
        match f {
            BinaryFn::Add => a + b,
            BinaryFn::Sub => a - b,
            BinaryFn::Mul => a * b,
            BinaryFn::Div => a / b,
            BinaryFn::Max => if a >= b {
                a
            } else {
                b
            },
            BinaryFn::Custom(k) => (self.custom_pair)(k, a, b),
        }
    }

    /// The exponential of a number; that of the lowest is nothing.
    pub open spec fn exponential(self, a: Quantity) -> real {
        if a.lowest {
            0int as real
        } else {
            (self.exp)(a.value)
        }
    }

    /// A row function.
    pub open spec fn row(self, f: RowFn, position: int, a: Seq<Quantity>, i: int) -> Quantity {
        match f {
            RowFn::Softmax => plain(
                self.exponential(a[i]) / sum(a.len(), |k: int| self.exponential(a[k])),
            ),
            RowFn::LayerNorm(_) => plain(
                (a[i].value - sum(a.len(), |k: int| a[k].value) / (a.len() as int as real))
                    * (self.factor)(f, numbers(a)),
            ),
            RowFn::RmsNorm(_) => plain(a[i].value * (self.factor)(f, numbers(a))),
            RowFn::CausalMask(_) => Quantity {
                value: a[i].value,
                lowest: a[i].lowest || i > position,
            },
            RowFn::Rope => plain((self.rotated)(position, numbers(a), i)),
        }
    }

    /// The gradient of a row function's input; of softmax the output is given.
    pub open spec fn row_slope(self, f: RowFn, a: Seq<Quantity>, g: Seq<Quantity>, i: int) -> real {
        match f {
            RowFn::Softmax => a[i].value * (g[i].value - sum(
                a.len(),
                |k: int| a[k].value * g[k].value,
            )),
            _ => (self.row_gradient)(f, numbers(a), numbers(g), i),
        }
    }

    /// Expressions in exact arithmetic.
    pub open spec fn reading(self) -> Reading<Quantity> {
        Reading {
            undefined: plain(0int as real),
            literal: |v: F32| plain(number(v)),
            fill: |f: InitFn, i: int| plain((self.letters)(f, i)),
            map: |f: MapFn, a: Quantity|
                if f is Identity {
                    a
                } else {
                    plain(self.applied(f, a.value))
                },
            combine: |f: BinaryFn, a: Quantity, b: Quantity|
                Quantity {
                    value: self.combined(f, a.value, b.value),
                    lowest: f is Add && (a.lowest || b.lowest),
                },
            dot: |a: Seq<Quantity>, b: Seq<Quantity>|
                plain(sum(a.len(), |k: int| a[k].value * b[k].value)),
            row: |f: RowFn, position: int, a: Seq<Quantity>, i: int| self.row(f, position, a, i),
            row_gradient: |f: RowFn, a: Seq<Quantity>, g: Seq<Quantity>, i: int|
                plain(self.row_slope(f, a, g, i)),
            same: |a: Quantity, b: Quantity| a.value == b.value,
            yes: plain(1int as real),
            no: plain(0int as real),
        }
    }

    /// An expression.
    pub open spec fn read(self, term: Term) -> Quantity {
        self.reading().read(term)
    }

    /// The number of an expression.
    pub open spec fn value(self, term: Term) -> real {
        self.read(term).value
    }

    /// Whether an element of a row-major matrix lies below all numbers.
    pub open spec fn hidden(self, a: Seq<Term>, cols: int, row: int, col: int) -> bool {
        self.read(a[row * cols + col]).lowest
    }

    /// An element of a row-major matrix.
    pub open spec fn entry(self, a: Seq<Term>, cols: int, row: int, col: int) -> real {
        self.value(a[row * cols + col])
    }
}

/// Equal summands have equal sums.
pub proof fn lemma_sum_equal(n: nat, f: spec_fn(int) -> real, g: spec_fn(int) -> real)
    requires
        forall|k: int| 0 <= k < n ==> #[trigger] f(k) == g(k),
    ensures
        sum(n, f) == sum(n, g),
    decreases n,
{
    if n > 0 {
        lemma_sum_equal((n - 1) as nat, f, g);
        assert(f(n - 1) == g(n - 1));
    }
}

/// The sum of sums.
pub proof fn lemma_sum_add(n: nat, f: spec_fn(int) -> real, g: spec_fn(int) -> real)
    ensures
        sum(n, |k: int| f(k) + g(k)) == sum(n, f) + sum(n, g),
    decreases n,
{
    if n > 0 {
        lemma_sum_add((n - 1) as nat, f, g);
    }
}

/// A common factor of all summands.
pub proof fn lemma_sum_scale(n: nat, f: spec_fn(int) -> real, factor: real)
    ensures
        sum(n, |k: int| f(k) * factor) == sum(n, f) * factor,
    decreases n,
{
    if n > 0 {
        lemma_sum_scale((n - 1) as nat, f, factor);
        let a = sum((n - 1) as nat, f);
        let b = f(n - 1);
        assert(a * factor + b * factor == (a + b) * factor) by (nonlinear_arith);
    } else {
        let zero = 0int as real;
        assert(zero * factor == zero) by (nonlinear_arith)
            requires
                zero == 0int as real,
        ;
    }
}

/// Equal summands that are all the same.
pub proof fn lemma_sum_constant(n: nat, x: real)
    ensures
        sum(n, |k: int| x) == (n as int as real) * x,
    decreases n,
{
    let m = n as int as real;
    if n > 0 {
        lemma_sum_constant((n - 1) as nat, x);
        let fewer = (n - 1) as real;
        assert(fewer * x + x == m * x) by (nonlinear_arith)
            requires
                m == fewer + 1int as real,
        ;
    } else {
        assert(m * x == 0int as real) by (nonlinear_arith)
            requires
                m == 0int as real,
        ;
    }
}

/// Adding numbers does not mind how they are grouped, and zero changes nothing.
proof fn lemma_adding(c: Exact)
    ensures
        monoid(c.reading().combiner(BinaryFn::Add), plain(0int as real)),
        (c.reading().literal)(F32 { bits: 0 }) == plain(0int as real),
{
    lemma_numbers();
    let g = c.reading().combiner(BinaryFn::Add);
    let zero = plain(0int as real);
    assert forall|a: Quantity, b: Quantity, d: Quantity| #[trigger] g(g(a, b), d) == g(
        a,
        g(b, d),
    ) by {
        assert(g(a, b) == (Quantity { value: a.value + b.value, lowest: a.lowest || b.lowest }));
        assert(g(b, d) == (Quantity { value: b.value + d.value, lowest: b.lowest || d.lowest }));
    }
    assert forall|a: Quantity| #[trigger] g(zero, a) == a by {}
    assert forall|a: Quantity| #[trigger] g(a, zero) == a by {}
}

/// A fold of additions is a sum.
proof fn lemma_fold_is_sum(c: Exact, values: Seq<Quantity>)
    ensures
        fold(c.reading().combiner(BinaryFn::Add), plain(0int as real), values).value == sum(
            values.len(),
            |i: int| values[i].value,
        ),
    decreases values.len(),
{
    if values.len() > 0 {
        let fewer = values.drop_last();
        lemma_fold_is_sum(c, fewer);
        lemma_sum_equal(
            fewer.len(),
            |i: int| fewer[i].value,
            |i: int| values[i].value,
        );
    }
}

/// A sum on the device is the sum.
pub proof fn law_totals_are_sums(c: Exact, items: Seq<Term>)
    ensures
        c.value(total(items)) == sum(items.len(), |i: int| c.value(items[i])),
{
    lemma_adding(c);
    let reading = c.reading();
    law_reductions_fold_their_items(
        reading,
        MapFn::Identity,
        BinaryFn::Add,
        F32 { bits: 0 },
        items,
    );
    let values = Seq::new(
        items.len(),
        |i: int| (reading.map)(MapFn::Identity, reading.read(items[i])),
    );
    lemma_fold_is_sum(c, values);
    lemma_sum_equal(items.len(), |i: int| values[i].value, |i: int| c.value(items[i]));
}

/// A sum of mapped elements on the device is the sum of what the map makes of them.
pub proof fn law_mapped_totals_are_sums(c: Exact, map: MapFn, items: Seq<Term>)
    ensures
        c.value(Term::Reduce(map, BinaryFn::Add, F32 { bits: 0 }, items)) == sum(
            items.len(),
            |i: int| c.applied(map, c.value(items[i])),
        ),
{
    lemma_adding(c);
    let reading = c.reading();
    law_reductions_fold_their_items(reading, map, BinaryFn::Add, F32 { bits: 0 }, items);
    let values = Seq::new(items.len(), |i: int| (reading.map)(map, reading.read(items[i])));
    lemma_fold_is_sum(c, values);
    lemma_sum_equal(
        items.len(),
        |i: int| values[i].value,
        |i: int| c.applied(map, c.value(items[i])),
    );
}

/// A sum of products on the device is the sum of the products.
pub proof fn law_paired_totals_are_sums(c: Exact, a: Seq<Term>, b: Seq<Term>)
    requires
        a.len() == b.len(),
    ensures
        c.value(Term::ZipReduce(BinaryFn::Mul, BinaryFn::Add, F32 { bits: 0 }, a, b)) == sum(
            a.len(),
            |i: int| c.value(a[i]) * c.value(b[i]),
        ),
{
    lemma_adding(c);
    let reading = c.reading();
    law_paired_reductions_fold_their_pairs(
        reading,
        BinaryFn::Mul,
        BinaryFn::Add,
        F32 { bits: 0 },
        a,
        b,
    );
    let values = Seq::new(
        a.len(),
        |i: int| (reading.combine)(BinaryFn::Mul, reading.read(a[i]), reading.read(b[i])),
    );
    lemma_fold_is_sum(c, values);
    lemma_sum_equal(a.len(), |i: int| values[i].value, |i: int| c.value(a[i]) * c.value(b[i]));
}

/// An inner product adds up what its pairs multiply to.
pub proof fn law_inner_products_are_sums(c: Exact, a: Seq<Term>, b: Seq<Term>)
    requires
        a.len() == b.len(),
    ensures
        c.value(Term::Dot(a, b)) == sum(a.len(), |k: int| c.value(a[k]) * c.value(b[k])),
        !c.read(Term::Dot(a, b)).lowest,
{
    let reading = c.reading();
    reading.lemma_read_all(a);
    reading.lemma_read_all(b);
    let x = reading.read_all(a);
    let y = reading.read_all(b);
    lemma_sum_equal(
        a.len(),
        |k: int| x[k].value * y[k].value,
        |k: int| c.value(a[k]) * c.value(b[k]),
    );
}

/// An element of a product is the sum over a row and a column.
pub proof fn law_products_are_sums(
    c: Exact,
    a: Seq<Term>,
    b: Seq<Term>,
    rows: nat,
    inner: nat,
    cols: nat,
    row: int,
    col: int,
)
    requires
        0 <= row < rows,
        0 <= col < cols,
    ensures
        c.entry(product(a, b, rows, inner, cols), cols as int, row, col) == sum(
            inner,
            |k: int| c.entry(a, inner as int, row, k) * c.entry(b, cols as int, k, col),
        ),
{
    lemma_position_in_range(row, col, rows as int, cols as int);
    lemma_row_col(row, col, cols as int);
    let x = row_of(a, inner, row);
    let y = super::algebra::column_of(b, inner, cols, col);
    law_inner_products_are_sums(c, x, y);
    lemma_sum_equal(
        inner,
        |k: int| c.value(x[k]) * c.value(y[k]),
        |k: int| c.entry(a, inner as int, row, k) * c.entry(b, cols as int, k, col),
    );
}

/// A transpose has rows for columns.
pub proof fn law_transposes_swap_rows_and_columns(
    a: Seq<Term>,
    rows: nat,
    cols: nat,
    row: int,
    col: int,
)
    requires
        0 <= row < rows,
        0 <= col < cols,
    ensures
        transpose(a, rows, cols)[col * rows + row] == a[row * cols + col],
{
    lemma_position_in_range(col, row, cols as int, rows as int);
    lemma_row_col(col, row, rows as int);
}

/// A stack of transposes has rows for columns in every matrix.
pub proof fn law_stacked_transposes_swap_rows_and_columns(
    a: Seq<Term>,
    batches: nat,
    rows: nat,
    cols: nat,
    batch: int,
    row: int,
    col: int,
)
    requires
        0 <= batch < batches,
        0 <= row < rows,
        0 <= col < cols,
    ensures
        transpose_batches(a, batches, rows, cols)[batch * (rows * cols) + col * rows + row]
            == a[batch * (rows * cols) + row * cols + col],
{
    let size = (rows * cols) as int;
    let inner = col * rows + row;
    lemma_position_in_range(col, row, cols as int, rows as int);
    assert(cols * rows == size) by (nonlinear_arith)
        requires
            size == rows * cols,
    ;
    lemma_row_col(batch, inner, size);
    lemma_row_col(col, row, rows as int);
    lemma_position_in_range(batch, inner, batches as int, size);
    assert(batches * size == batches * cols * rows) by (nonlinear_arith)
        requires
            size == rows * cols,
    ;
}

/// The sums of rows.
pub proof fn law_row_totals_are_sums(c: Exact, a: Seq<Term>, rows: nat, cols: nat, row: int)
    requires
        0 <= row < rows,
    ensures
        c.value(row_totals(a, rows, cols)[row]) == sum(
            cols,
            |k: int| c.entry(a, cols as int, row, k),
        ),
{
    let items = row_of(a, cols, row);
    law_totals_are_sums(c, items);
    lemma_sum_equal(
        cols,
        |i: int| c.value(items[i]),
        |k: int| c.entry(a, cols as int, row, k),
    );
}

/// A matrix to whose rows a row is added.
pub proof fn lemma_zip_by_rows(
    c: Exact,
    f: BinaryFn,
    a: Seq<Term>,
    b: Seq<Term>,
    rows: nat,
    cols: nat,
    row: int,
    col: int,
)
    requires
        a.len() == rows * cols,
        0 <= row < rows,
        0 <= col < cols,
    ensures
        c.entry(zip_by_rows(f, a, b, cols), cols as int, row, col) == c.combined(
            f,
            c.entry(a, cols as int, row, col),
            c.value(b[col]),
        ),
{
    lemma_position_in_range(row, col, rows as int, cols as int);
    lemma_row_col(row, col, cols as int);
}

/// An element of a row function's result.
pub proof fn lemma_row_apply(c: Exact, f: RowFn, a: Seq<Term>, rows: nat, cols: nat, row: int, col: int)
    requires
        a.len() == rows * cols,
        0 <= row < rows,
        0 <= col < cols,
    ensures
        c.read(row_apply(f, a, cols)[row * cols + col]) == c.row(
            f,
            f.position(row),
            Seq::new(cols, |k: int| c.read(a[row * cols + k])),
            col,
        ),
{
    lemma_position_in_range(row, col, rows as int, cols as int);
    lemma_row_col(row, col, cols as int);
    let items = row_of(a, cols, row);
    c.reading().lemma_read_all(items);
    assert(c.reading().read_all(items) =~= Seq::new(cols, |k: int| c.read(a[row * cols + k])));
}

} // verus!
