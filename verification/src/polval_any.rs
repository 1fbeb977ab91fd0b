//! The untyped cells POLVAL reads its arrays as, and how it stores results back.

use vstd::prelude::*;
use crate::da::{DA, GenericDA};
use crate::da_ops::copy_terms;
use crate::value::RosyValue;

verus! {

/// Two values are the same: equal scalars, equal contents of strings, vectors and DA vectors,
/// and arrays of one length whose cells are pairwise the same.
pub open spec fn same_value(a: RosyValue, b: RosyValue) -> bool
    decreases a, 0nat,
{
    match a {
        RosyValue::RE(x) => b matches RosyValue::RE(y) && x == y,
        RosyValue::ST(x) => b matches RosyValue::ST(y) && x@ == y@,
        RosyValue::LO(x) => b matches RosyValue::LO(y) && x == y,
        RosyValue::CM(x) => b matches RosyValue::CM(y) && x == y,
        RosyValue::VE(x) => b matches RosyValue::VE(y) && x@ == y@,
        RosyValue::DA(x) => b matches RosyValue::DA(y) && x.terms@ == y.terms@,
        RosyValue::CD(x) => b matches RosyValue::CD(y) && x.terms@ == y.terms@,
        RosyValue::Arr(xs) => b matches RosyValue::Arr(ys) && xs@.len() == ys@.len()
            && same_prefix(xs@, ys@, xs@.len() as int),
    }
}

/// The first `n` cells of `s` and `t` exist and are pairwise the same.
pub open spec fn same_prefix(s: Seq<RosyValue>, t: Seq<RosyValue>, n: int) -> bool
    decreases s, n,
{
    if n <= 0 {
        true
    } else if n > s.len() || n > t.len() {
        false
    } else {
        same_prefix(s, t, n - 1) && same_value(s[n - 1], t[n - 1])
    }
}

/// Two cell sequences of one length whose cells are pairwise the same.
pub open spec fn same_cells(s: Seq<RosyValue>, t: Seq<RosyValue>) -> bool {
    s.len() == t.len() && same_prefix(s, t, s.len() as int)
}

/// `same_prefix` depends only on the first `n` cells.
proof fn lemma_same_prefix_only_prefix(s: Seq<RosyValue>, t: Seq<RosyValue>, s2: Seq<RosyValue>, t2: Seq<RosyValue>, n: int)
    requires
        0 <= n <= s.len(),
        n <= t.len(),
        n <= s2.len(),
        n <= t2.len(),
        forall|k: int| 0 <= k < n ==> s[k] == s2[k] && t[k] == t2[k],
    ensures
        same_prefix(s, t, n) == same_prefix(s2, t2, n),
    decreases n,
{
    if n > 0 {
        lemma_same_prefix_only_prefix(s, t, s2, t2, n - 1);
    }
}

/// A copy of a value with the same contents.
pub fn copy_value(v: &RosyValue) -> (r: RosyValue)
    ensures
        same_value(r, *v),
    decreases v, 0nat,
{
    match v {
        RosyValue::RE(x) => RosyValue::RE(*x),
        RosyValue::ST(s) => RosyValue::ST(s.clone()),
        RosyValue::LO(b) => RosyValue::LO(*b),
        RosyValue::CM(c) => RosyValue::CM(*c),
        RosyValue::VE(xs) => RosyValue::VE(copy_reals(xs)),
        RosyValue::DA(d) => RosyValue::DA(GenericDA { terms: copy_terms(&d.terms) }),
        RosyValue::CD(d) => RosyValue::CD(GenericDA { terms: copy_terms(&d.terms) }),
        RosyValue::Arr(xs) => {
            let c = copy_cells(xs);
            RosyValue::Arr(c)
        },
    }
}

/// A copy of a sequence of cells, cell by cell.
pub fn copy_cells(xs: &Vec<RosyValue>) -> (r: Vec<RosyValue>)
    ensures
        same_cells(r@, xs@),
    decreases xs, 1nat,
{
    let mut r: Vec<RosyValue> = Vec::new();
    let mut i: usize = 0;
    while i < xs.len()
        invariant
            i <= xs@.len(),
            r@.len() == i,
            same_prefix(r@, xs@, i as int),
        decreases xs@.len() - i,
    {
        let c = copy_value(&xs[i]);
        let ghost before = r@;
        r.push(c);
        proof {
            lemma_same_prefix_only_prefix(before, xs@, r@, xs@, i as int);
        }
        i = i + 1;
    }
    r
}

/// A copy of a vector of reals.
fn copy_reals(xs: &Vec<u64>) -> (r: Vec<u64>)
    ensures
        r@ == xs@,
{
    let mut r: Vec<u64> = Vec::new();
    let mut i: usize = 0;
    while i < xs.len()
        invariant
            i <= xs@.len(),
            r@ == xs@.take(i as int),
        decreases xs@.len() - i,
    {
        r.push(xs[i]);
        proof {
            assert(xs@.take(i + 1) =~= xs@.take(i as int).push(xs@[i as int]));
        }
        i = i + 1;
    }
    proof {
        assert(xs@.take(i as int) =~= xs@);
    }
    r
}

/// An array POLVAL can read as untyped cells.
pub trait PolvalAnySrc {
    /// `cells` are the cells this array stands for.
    spec fn stands_for(&self, cells: Seq<RosyValue>) -> bool;

    /// The cells of the array.
    fn polval_any_cells(&self) -> (r: Vec<RosyValue>)
        ensures
            self.stands_for(r@),
    ;
}

/// An array of cells stands for (copies of) its own cells.
impl PolvalAnySrc for Vec<RosyValue> {
    open spec fn stands_for(&self, cells: Seq<RosyValue>) -> bool {
        same_cells(cells, self@)
    }

    fn polval_any_cells(&self) -> (r: Vec<RosyValue>) {
        copy_cells(self)
    }
}

/// An array value stands for its cells; any other value for itself alone.
impl PolvalAnySrc for RosyValue {
    open spec fn stands_for(&self, cells: Seq<RosyValue>) -> bool {
        match *self {
            RosyValue::Arr(v) => same_cells(cells, v@),
            _ => cells.len() == 1 && same_value(cells[0], *self),
        }
    }

    fn polval_any_cells(&self) -> (r: Vec<RosyValue>) {
        match self {
            RosyValue::Arr(v) => copy_cells(v),
            _ => {
                let c = copy_value(self);
                let r = vec![c];
                assert(same_prefix(r@, seq![*self], 0));
                r
            },
        }
    }
}

/// DA vectors stand for DA cells with the same terms.
impl PolvalAnySrc for Vec<DA> {
    open spec fn stands_for(&self, cells: Seq<RosyValue>) -> bool {
        cells.len() == self@.len() && forall|i: int| 0 <= i < cells.len() ==>
            (#[trigger] cells[i] matches RosyValue::DA(d) && d.terms@ == self@[i].terms@)
    }

    fn polval_any_cells(&self) -> (r: Vec<RosyValue>) {
        let mut r: Vec<RosyValue> = Vec::new();
        let mut i: usize = 0;
        while i < self.len()
            invariant
                i <= self@.len(),
                r@.len() == i,
                forall|k: int| 0 <= k < i ==>
                    (#[trigger] r@[k] matches RosyValue::DA(d) && d.terms@ == self@[k].terms@),
            decreases self@.len() - i,
        {
            r.push(RosyValue::DA(GenericDA { terms: copy_terms(&self[i].terms) }));
            i = i + 1;
        }
        r
    }
}

/// Reals (binary64 patterns) stand for real cells.
impl PolvalAnySrc for Vec<u64> {
    open spec fn stands_for(&self, cells: Seq<RosyValue>) -> bool {
        cells.len() == self@.len() && forall|i: int| 0 <= i < cells.len() ==>
            #[trigger] cells[i] == RosyValue::RE(self@[i])
    }

    fn polval_any_cells(&self) -> (r: Vec<RosyValue>) {
        let mut r: Vec<RosyValue> = Vec::new();
        let mut i: usize = 0;
        while i < self.len()
            invariant
                i <= self@.len(),
                r@.len() == i,
                forall|k: int| 0 <= k < i ==> #[trigger] r@[k] == RosyValue::RE(self@[k]),
            decreases self@.len() - i,
        {
            r.push(RosyValue::RE(self[i]));
            i = i + 1;
        }
        r
    }
}

/// Columns of reals stand for array cells, one per column, of real cells.
impl PolvalAnySrc for Vec<Vec<u64>> {
    open spec fn stands_for(&self, cells: Seq<RosyValue>) -> bool {
        cells.len() == self@.len() && forall|i: int| 0 <= i < cells.len() ==>
            (#[trigger] cells[i] matches RosyValue::Arr(col) && col@.len() == self@[i]@.len()
                && forall|j: int| 0 <= j < col@.len() ==> #[trigger] col@[j] == RosyValue::RE(self@[i]@[j]))
    }

    fn polval_any_cells(&self) -> (r: Vec<RosyValue>) {
        let mut r: Vec<RosyValue> = Vec::new();
        let mut i: usize = 0;
        while i < self.len()
            invariant
                i <= self@.len(),
                r@.len() == i,
                forall|k: int| 0 <= k < i ==>
                    (#[trigger] r@[k] matches RosyValue::Arr(col) && col@.len() == self@[k]@.len()
                        && forall|j: int| 0 <= j < col@.len() ==> #[trigger] col@[j] == RosyValue::RE(self@[k]@[j])),
            decreases self@.len() - i,
        {
            let col = self[i].polval_any_cells();
            r.push(RosyValue::Arr(col));
            i = i + 1;
        }
        r
    }
}

/// Where POLVAL on untyped cells stores its results.
pub trait PolvalAnyDst: Sized {
    /// `after` is what storing the result cells `cells` into `before` leaves.
    spec fn stored(before: Self, after: Self, cells: Seq<RosyValue>) -> bool;

    /// Stores the result cells.
    fn store_polval_any(&mut self, v: Vec<RosyValue>)
        ensures
            Self::stored(*old(self), *final(self), v@),
    ;
}

/// An array of cells takes the results in its first cells, growing to hold them all, and
/// keeps the cells past them.
impl PolvalAnyDst for Vec<RosyValue> {
    open spec fn stored(before: Self, after: Self, cells: Seq<RosyValue>) -> bool {
        after@ == if cells.len() >= before@.len() {
            cells
        } else {
            cells + before@.skip(cells.len() as int)
        }
    }

    fn store_polval_any(&mut self, v: Vec<RosyValue>) {
        let ghost before = self@;
        let ghost cells = v@;
        let n = v.len();
        let mut v = v;
        while self.len() < n
            invariant
                v@ == cells,
                n == cells.len(),
                self@.len() >= before.len(),
                self@.len() <= if n >= before.len() { n as int } else { before.len() as int },
                forall|k: int| 0 <= k < before.len() ==> #[trigger] self@[k] == before[k],
            decreases n - self@.len(),
        {
            self.push(RosyValue::RE(0));
        }
        let mut k = n;
        while k > 0
            invariant
                k <= n,
                n == cells.len(),
                v@ == cells.take(k as int),
                self@.len() == if n >= before.len() { n as int } else { before.len() as int },
                forall|j: int| k <= j < n ==> #[trigger] self@[j] == cells[j],
                forall|j: int| n <= j < before.len() ==> #[trigger] self@[j] == before[j],
            decreases k,
        {
            k = k - 1;
            let x = v.pop().unwrap();
            assert(x == cells[k as int]);
            assert(cells.take(k + 1).drop_last() =~= cells.take(k as int));
            self.set(k, x);
        }
        proof {
            let expect = if cells.len() >= before.len() {
                cells
            } else {
                cells + before.skip(cells.len() as int)
            };
            assert(self@ =~= expect);
        }
    }
}

/// A single result is stored as that value, any other number as an array of them.
impl PolvalAnyDst for RosyValue {
    open spec fn stored(before: Self, after: Self, cells: Seq<RosyValue>) -> bool {
        if cells.len() == 1 {
            after == cells[0]
        } else {
            after matches RosyValue::Arr(v) && v@ == cells
        }
    }

    fn store_polval_any(&mut self, v: Vec<RosyValue>) {
        if v.len() == 1 {
            let mut v = v;
            let x = v.pop().unwrap();
            *self = x;
        } else {
            *self = RosyValue::Arr(v);
        }
    }
}

/// Reading a value back after POLVAL stored results in it gives the stored results: a single
/// result is read as itself (unless it is an array, which reads as its own cells), any other
/// number of results as those results.
pub proof fn law_stored_value_reads_back(before: RosyValue, after: RosyValue, cells: Seq<RosyValue>, read: Seq<RosyValue>)
    requires
        <RosyValue as PolvalAnyDst>::stored(before, after, cells),
        after.stands_for(read),
        !(cells.len() == 1 && cells[0] is Arr),
    ensures
        same_cells(read, cells),
{
    if cells.len() == 1 {
        assert(same_prefix(read, cells, 0));
    }
}


} // verus!
