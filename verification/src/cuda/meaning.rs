//! What the expressions of elements stand for.
//!
//! A reading gives every part of an expression a meaning: what a literal, a fill and a
//! function of elements are. Which numbers these are is left to the reading. What a kernel
//! does with them is not: a reduction is what a block of threads makes of its items.

use vstd::prelude::*;

use super::algebra::Term;
use super::arith::ceil_div;
use super::device::reduction::{agree_on, block_value};
use super::ops::{BinaryFn, InitFn, MapFn, RowFn};
use super::scalar::{lemma_magnitude_ordered, F32, ONE_BITS};

verus! {

/// How the parts of an expression are read.
#[verifier::reject_recursive_types(T)]
pub ghost struct Reading<T> {
    /// Memory that was not written.
    pub undefined: T,
    pub literal: spec_fn(F32) -> T,
    pub fill: spec_fn(InitFn, int) -> T,
    pub map: spec_fn(MapFn, T) -> T,
    pub combine: spec_fn(BinaryFn, T, T) -> T,
    pub dot: spec_fn(Seq<T>, Seq<T>) -> T,
    pub row: spec_fn(RowFn, int, Seq<T>, int) -> T,
    pub row_gradient: spec_fn(RowFn, Seq<T>, Seq<T>, int) -> T,
    /// Whether two elements agree, and what a comparison gives.
    pub same: spec_fn(T, T) -> bool,
    pub yes: T,
    pub no: T,
}

impl<T> Reading<T> {
    /// A function of one element.
    pub open spec fn mapper(self, f: MapFn) -> spec_fn(T) -> T {
        |a: T| (self.map)(f, a)
    }

    /// A function of two elements.
    pub open spec fn combiner(self, f: BinaryFn) -> spec_fn(T, T) -> T {
        |a: T, b: T| (self.combine)(f, a, b)
    }

    /// Two sequences combined pair by pair.
    pub open spec fn pairs(self, f: BinaryFn, a: Seq<T>, b: Seq<T>) -> Seq<T> {
        Seq::new(a.len(), |i: int| (self.combine)(f, a[i], b[i]))
    }

    /// What a block of threads makes of mapped items.
    pub open spec fn reduced(self, map: MapFn, reduce: BinaryFn, start: F32, items: Seq<T>) -> T {
        block_value(
            self.combiner(reduce),
            self.mapper(map),
            items,
            true,
            (self.literal)(start),
            ceil_div(items.len() as int, 1024),
            0,
        )
    }

    /// What a block of threads makes of items as they are.
    pub open spec fn folded(self, reduce: BinaryFn, start: F32, items: Seq<T>) -> T {
        block_value(
            self.combiner(reduce),
            self.mapper(MapFn::Identity),
            items,
            false,
            (self.literal)(start),
            ceil_div(items.len() as int, 1024),
            0,
        )
    }

    /// What a block of threads finds out about two sequences.
    pub open spec fn compared(self, a: Seq<T>, b: Seq<T>) -> T {
        if agree_on(self.same, a, b, 0, 1024 * ceil_div(a.len() as int, 1024)) {
            self.yes
        } else {
            self.no
        }
    }

    /// An expression.
    pub open spec fn read(self, term: Term) -> T
        decreases term,
    {
        match term {
            Term::Undefined => self.undefined,
            Term::Literal(v) => (self.literal)(v),
            Term::Init(f, i) => (self.fill)(f, i),
            Term::Apply(f, a) => (self.map)(f, self.read(*a)),
            Term::Zip(f, a, b) => (self.combine)(f, self.read(*a), self.read(*b)),
            Term::Reduce(map, reduce, start, items) => self.reduced(
                map,
                reduce,
                start,
                self.read_all(items),
            ),
            Term::ZipReduce(map, reduce, start, a, b) => self.folded(
                reduce,
                start,
                self.pairs(map, self.read_all(a), self.read_all(b)),
            ),
            Term::Dot(a, b) => (self.dot)(self.read_all(a), self.read_all(b)),
            Term::Row(f, position, items, i) => (self.row)(f, position, self.read_all(items), i),
            Term::RowGradient(f, a, g, i) => (self.row_gradient)(
                f,
                self.read_all(a),
                self.read_all(g),
                i,
            ),
            Term::Same(a, b) => self.compared(self.read_all(a), self.read_all(b)),
        }
    }

    /// Expressions, one by one.
    pub open spec fn read_all(self, items: Seq<Term>) -> Seq<T>
        decreases items,
    {
        if items.len() == 0 {
            Seq::empty()
        } else {
            self.read_all(items.drop_last()).push(self.read(items.last()))
        }
    }

    /// Every expression is read on its own.
    pub proof fn lemma_read_all(self, items: Seq<Term>)
        ensures
            self.read_all(items).len() == items.len(),
            forall|i: int|
                0 <= i < items.len() ==> #[trigger] self.read_all(items)[i] == self.read(items[i]),
        decreases items.len(),
    {
        if items.len() > 0 {
            let fewer = items.drop_last();
            self.lemma_read_all(fewer);
            assert forall|i: int| 0 <= i < items.len() implies #[trigger] self.read_all(items)[i]
                == self.read(items[i]) by {
                if i < fewer.len() {
                    assert(fewer[i] == items[i]);
                    assert(self.read_all(fewer)[i] == self.read(fewer[i]));
                }
            }
        }
    }
}

/// The number that a literal stands for.
pub open spec fn number(v: F32) -> real {
    (v.value() as real) / ((F32 { bits: ONE_BITS }).value() as real)
}

/// A literal one is one, a literal zero is zero.
pub proof fn lemma_numbers()
    ensures
        number(F32 { bits: ONE_BITS }) == 1int as real,
        number(F32 { bits: 0 }) == 0int as real,
        (F32 { bits: ONE_BITS }).value() > 0,
{
    let one = (F32 { bits: ONE_BITS }).value();
    lemma_magnitude_ordered(0, ONE_BITS);
    assert(one > 0);
    assert((one as real) / (one as real) == 1int as real) by (nonlinear_arith)
        requires
            one > 0,
    ;
    assert((0int as real) / (one as real) == 0int as real) by (nonlinear_arith)
        requires
            one > 0,
    ;
}

/// Whether an element that no arithmetic has made can come out as this number. A draw can be
/// many numbers; whichever it is, it is one of these.
pub open spec fn can_be(term: Term, x: real) -> bool {
    match term {
        Term::Literal(v) => v.finite() && x == number(v),
        Term::Init(f, i) => f.can_be(i, x),
        _ => false,
    }
}

/// The number of an element that no arithmetic has made, if it is known: a literal or a fill.
pub open spec fn number_of(term: Term) -> Option<real> {
    match term {
        Term::Literal(v) => if v.finite() {
            Some(number(v))
        } else {
            None
        },
        Term::Init(f, i) => match f.number(i) {
            Some(n) => Some(n as real),
            None => None,
        },
        _ => None,
    }
}

} // verus!
