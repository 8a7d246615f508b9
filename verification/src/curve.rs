//! Reference curves: the pH of a buffer solution at a number of
//! temperatures, and the straight lines between them.
use crate::rational::{ck, ck_quot, lift, ratio, ArithError, Rational};
use crate::stats::reals;
use vstd::prelude::*;

verus! {

/// Each element is less than all that follow it.
pub open spec fn increasing(t: Seq<real>) -> bool {
    forall|i: int, j: int| 0 <= i < j < t.len() ==> t[i] < t[j]
}

/// `x` lies between the first and the last element, both included.
pub open spec fn covers(t: Seq<real>, x: real) -> bool {
    t.len() > 0 && t[0] <= x <= t.last()
}

/// The index of the last element that does not exceed `x`; zero where there
/// is none.
pub open spec fn segment(t: Seq<real>, x: real) -> int
    decreases t.len(),
{
    if t.len() <= 1 {
        0
    } else if t.last() <= x {
        t.len() - 1
    } else {
        segment(t.drop_last(), x)
    }
}

/// The value at `x` of the straight line through `(t0, v0)` and `(t1, v1)`.
pub open spec fn line_of(t0: real, v0: real, t1: real, v1: real, x: real) -> real {
    v0 + (v1 - v0) * ((x - t0) / (t1 - t0))
}

/// The line of [`line_of`], one step at a time: the distance of `x` from
/// `t0`, the width `t1 - t0`, their quotient, the rise `v1 - v0`, the
/// product, the sum with `v0`.
pub open spec fn line_checked(t0: real, v0: real, t1: real, v1: real, x: real) -> Result<
    real,
    ArithError,
> {
    match ck(x - t0) {
        Err(e) => Err(e),
        Ok(dx) => match ck(t1 - t0) {
            Err(e) => Err(e),
            Ok(width) => match ck_quot(dx, width) {
                Err(e) => Err(e),
                Ok(part) => match ck(v1 - v0) {
                    Err(e) => Err(e),
                    Ok(rise) => match ck(rise * part) {
                        Err(e) => Err(e),
                        Ok(p) => ck(v0 + p),
                    },
                },
            },
        },
    }
}

/// The curve through the points `(t[i], v[i])` at `x`: nothing outside the
/// temperatures of the curve; at a control point its value; between two
/// control points the straight line through them.
pub open spec fn interpolate_of(t: Seq<real>, v: Seq<real>, x: real) -> Option<real> {
    if !covers(t, x) {
        None
    } else {
        let i = segment(t, x);
        if t[i] == x {
            Some(v[i])
        } else {
            Some(line_of(t[i], v[i], t[i + 1], v[i + 1], x))
        }
    }
}

/// The curve at `x` as [`ReferenceCurve::interpolate`] computes it: no
/// arithmetic outside the curve or at a control point, the steps of
/// [`line_checked`] between two control points.
pub open spec fn interpolate_checked(t: Seq<real>, v: Seq<real>, x: real) -> Result<
    Option<real>,
    ArithError,
> {
    if !covers(t, x) {
        Ok(None)
    } else {
        let i = segment(t, x);
        if t[i] == x {
            Ok(Some(v[i]))
        } else {
            match line_checked(t[i], v[i], t[i + 1], v[i + 1], x) {
                Err(e) => Err(e),
                Ok(r) => Ok(Some(r)),
            }
        }
    }
}

/// The outcome of an interpolation with its value replaced by the number it
/// stands for.
pub open spec fn lift_optional(r: Result<Option<Rational>, ArithError>) -> Result<
    Option<real>,
    ArithError,
> {
    match r {
        Ok(Some(v)) => Ok(Some(v@)),
        Ok(None) => Ok(None),
        Err(e) => Err(e),
    }
}

/// Where the first element does not exceed `x`, the segment of `x` starts at
/// or below `x`, and the next element, if there is one, lies above.
pub proof fn lemma_segment_brackets(t: Seq<real>, x: real)
    requires
        t.len() > 0,
        t[0] <= x,
    ensures
        0 <= segment(t, x) < t.len(),
        t[segment(t, x)] <= x,
        segment(t, x) + 1 < t.len() ==> x < t[segment(t, x) + 1],
    decreases t.len(),
{
    if t.len() > 1 && !(t.last() <= x) {
        let u = t.drop_last();
        assert(u[0] == t[0]);
        lemma_segment_brackets(u, x);
        let i = segment(u, x);
        assert(u[i] == t[i]);
        if i + 1 < u.len() {
            assert(u[i + 1] == t[i + 1]);
        }
    }
}

/// The segment of a control point is that control point.
pub proof fn lemma_segment_of_control_point(t: Seq<real>, j: int)
    requires
        increasing(t),
        0 <= j < t.len(),
    ensures
        covers(t, t[j]),
        segment(t, t[j]) == j,
{
    assert(t[0] <= t[j]);
    assert(t[j] <= t.last());
    lemma_segment_brackets(t, t[j]);
    let i = segment(t, t[j]);
    if i < j {
        assert(t[i + 1] <= t[j]);
    } else if j < i {
        assert(t[j] < t[i]);
    }
}

/// At the temperature of a control point the curve has exactly the value of
/// that control point, and no arithmetic is needed to find it.
pub proof fn lemma_interpolate_at_control_point(t: Seq<real>, v: Seq<real>, j: int)
    requires
        increasing(t),
        t.len() == v.len(),
        0 <= j < t.len(),
    ensures
        interpolate_of(t, v, t[j]) == Some(v[j]),
        interpolate_checked(t, v, t[j]) == Ok::<Option<real>, ArithError>(Some(v[j])),
{
    lemma_segment_of_control_point(t, j);
}

/// Where it has a value, the checked line is the line, and its two control
/// points differ.
pub proof fn lemma_line_checked(t0: real, v0: real, t1: real, v1: real, x: real)
    requires
        line_checked(t0, v0, t1, v1, x) is Ok,
    ensures
        line_checked(t0, v0, t1, v1, x) == Ok::<real, ArithError>(line_of(t0, v0, t1, v1, x)),
        t0 != t1,
{
}

/// Where it has a value, the checked interpolation is the interpolation.
pub proof fn lemma_interpolate_checked(t: Seq<real>, v: Seq<real>, x: real)
    requires
        interpolate_checked(t, v, x) is Ok,
    ensures
        interpolate_checked(t, v, x) == Ok::<Option<real>, ArithError>(interpolate_of(t, v, x)),
{
    if covers(t, x) {
        let i = segment(t, x);
        if t[i] != x {
            lemma_line_checked(t[i], v[i], t[i + 1], v[i + 1], x);
        }
    }
}

/// The temperatures of the standard tables: every five degrees from 0 to 95
/// degrees Celsius.
pub open spec fn standard_temperatures() -> Seq<real> {
    Seq::new(20, |i: int| (5 * i) as real)
}

/// The pH of the pH 4.01 buffer solution at the standard temperatures, in
/// hundredths.
pub open spec fn ph4_hundredths() -> Seq<i32> {
    seq![
        401i32, 400, 400, 400, 400, 401, 402, 403, 404, 405, 406, 407, 409, 411, 412, 414, 416, 417,
        419, 420,
    ]
}

/// The pH of the pH 10.01 buffer solution at the standard temperatures, in
/// hundredths.
pub open spec fn ph10_hundredths() -> Seq<i32> {
    seq![
        1032i32, 1025, 1018, 1012, 1006, 1001, 996, 992, 988, 985, 982, 979, 977, 976, 975, 974,
        973, 974, 975, 976,
    ]
}

/// The numbers that a table of hundredths stands for.
pub open spec fn from_hundredths(table: Seq<i32>) -> Seq<real> {
    Seq::new(table.len(), |i: int| ratio(table[i] as int, 100))
}

/// The pH of a buffer solution at a number of temperatures, in the order of
/// the temperatures, to be read off between them along straight lines.
pub struct ReferenceCurve {
    temperatures: Vec<Rational>,
    values: Vec<Rational>,
}

impl ReferenceCurve {
    /// The temperatures of the control points.
    pub closed spec fn temps(&self) -> Seq<real> {
        reals(self.temperatures@)
    }

    /// The values at the control points.
    pub closed spec fn vals(&self) -> Seq<real> {
        reals(self.values@)
    }

    /// What holds of every curve: one value for each temperature, and the
    /// temperatures increase.
    #[verifier::type_invariant]
    pub open spec fn wf(&self) -> bool {
        self.temps().len() == self.vals().len() && increasing(self.temps())
    }

    /// The curve through the given control points, if there is one value for
    /// each temperature and the temperatures increase.
    pub fn new(temperatures: Vec<Rational>, values: Vec<Rational>) -> (r: Option<ReferenceCurve>)
        ensures
            r is Some <==> temperatures@.len() == values@.len() && increasing(
                reals(temperatures@),
            ),
            r matches Some(c) ==> c.temps() == reals(temperatures@) && c.vals() == reals(values@),
    {
        let n = temperatures.len();
        if values.len() != n {
            return None;
        }
        let ghost t = reals(temperatures@);
        let mut i: usize = 1;
        while i < n
            invariant
                n == temperatures@.len(),
                1 <= i,
                t == reals(temperatures@),
                forall|a: int, b: int| 0 <= a < b < i && b < n ==> t[a] < t[b],
            decreases n - i,
        {
            if !temperatures[i - 1].lt(&temperatures[i]) {
                proof {
                    assert(!(t[i - 1] < t[i as int]));
                }
                return None;
            }
            proof {
                assert forall|a: int| 0 <= a < i implies t[a] < t[i as int] by {
                    if a < i - 1 {
                        assert(t[a] < t[i - 1]);
                    }
                }
            }
            i += 1;
        }
        Some(ReferenceCurve { temperatures, values })
    }

    /// The curve whose control points lie every five degrees from zero, with
    /// the values of `table` in hundredths.
    fn every_five_degrees(table: &[i32; 20]) -> (c: ReferenceCurve)
        ensures
            c.temps() == standard_temperatures(),
            c.vals() == from_hundredths(table@),
    {
        let mut temperatures: Vec<Rational> = Vec::new();
        let mut values: Vec<Rational> = Vec::new();
        let mut i: usize = 0;
        while i < 20
            invariant
                i <= 20,
                temperatures@.len() == i,
                values@.len() == i,
                forall|k: int| 0 <= k < i ==> (#[trigger] temperatures@[k])@ == (5 * k) as real,
                forall|k: int|
                    0 <= k < i ==> (#[trigger] values@[k])@ == ratio(table@[k] as int, 100),
            decreases 20 - i,
        {
            let degrees: i32 = 5 * (i as i32);
            temperatures.push(Rational::from_int(degrees));
            values.push(Rational::from_hundredths(table[i]));
            i += 1;
        }
        proof {
            assert(reals(temperatures@) =~= standard_temperatures());
            assert(reals(values@) =~= from_hundredths(table@));
            assert forall|a: int, b: int| 0 <= a < b < 20 implies standard_temperatures()[a]
                < standard_temperatures()[b] by {
                assert(((5 * a) as real) < ((5 * b) as real));
            }
        }
        ReferenceCurve { temperatures, values }
    }

    /// The curve of the pH 4.01 buffer solution: its pH every five degrees
    /// from 0 to 95 degrees Celsius.
    pub fn ph4_buffer() -> (c: ReferenceCurve)
        ensures
            c.temps() == standard_temperatures(),
            c.vals() == from_hundredths(ph4_hundredths()),
    {
        let table: [i32; 20] = [
            401, 400, 400, 400, 400, 401, 402, 403, 404, 405, 406, 407, 409, 411, 412, 414, 416,
            417, 419, 420,
        ];
        proof {
            assert(table@ =~= ph4_hundredths());
        }
        ReferenceCurve::every_five_degrees(&table)
    }

    /// The curve of the pH 10.01 buffer solution: its pH every five degrees
    /// from 0 to 95 degrees Celsius.
    pub fn ph10_buffer() -> (c: ReferenceCurve)
        ensures
            c.temps() == standard_temperatures(),
            c.vals() == from_hundredths(ph10_hundredths()),
    {
        let table: [i32; 20] = [
            1032, 1025, 1018, 1012, 1006, 1001, 996, 992, 988, 985, 982, 979, 977, 976, 975, 974,
            973, 974, 975, 976,
        ];
        proof {
            assert(table@ =~= ph10_hundredths());
        }
        ReferenceCurve::every_five_degrees(&table)
    }

    /// The number of control points.
    pub fn len(&self) -> (n: usize)
        ensures
            n == self.temps().len(),
            n == self.vals().len(),
    {
        proof {
            use_type_invariant(self);
        }
        self.temperatures.len()
    }

    /// The index of the last control point whose temperature does not
    /// exceed `temperature`, which the curve must cover.
    fn locate(&self, temperature: &Rational) -> (i: usize)
        requires
            covers(self.temps(), temperature@),
        ensures
            i == segment(self.temps(), temperature@),
            i < self.temps().len(),
    {
        proof {
            use_type_invariant(self);
            lemma_segment_brackets(self.temps(), temperature@);
        }
        let ghost t = self.temps();
        let ghost x = temperature@;
        let n = self.temperatures.len();
        let mut i: usize = n - 1;
        proof {
            assert(t.take(n as int) =~= t);
        }
        while i > 0 && temperature.lt(&self.temperatures[i])
            invariant
                0 <= i < n,
                n == self.temperatures@.len(),
                t == reals(self.temperatures@),
                x == temperature@,
                segment(t, x) == segment(t.take(i + 1), x),
            decreases i,
        {
            proof {
                assert(t.take(i + 1).drop_last() =~= t.take(i as int));
            }
            i -= 1;
        }
        i
    }

    /// The pH of the solution at `temperature`: nothing outside the
    /// temperatures of the curve; at a control point its value; between two
    /// control points the value on the straight line through them.
    pub fn interpolate(&self, temperature: &Rational) -> (r: Result<Option<Rational>, ArithError>)
        ensures
            lift_optional(r) == interpolate_checked(self.temps(), self.vals(), temperature@),
            lift_optional(r) is Ok ==> lift_optional(r) == Ok::<Option<real>, ArithError>(
                interpolate_of(self.temps(), self.vals(), temperature@),
            ),
            r matches Ok(None) <==> !covers(self.temps(), temperature@),
            r matches Err(e) ==> e == ArithError::Overflow,
            forall|j: int|
                0 <= j < self.temps().len() && #[trigger] self.temps()[j] == temperature@
                    ==> lift_optional(r) == Ok::<Option<real>, ArithError>(Some(self.vals()[j])),
    {
        proof {
            use_type_invariant(self);
            use_type_invariant(temperature);
        }
        let ghost t = self.temps();
        let ghost v = self.vals();
        let ghost x = temperature@;
        proof {
            assert forall|j: int| 0 <= j < t.len() && #[trigger] t[j] == x implies
                interpolate_checked(t, v, x) == Ok::<Option<real>, ArithError>(Some(v[j])) by {
                lemma_interpolate_at_control_point(t, v, j);
            }
        }
        let n = self.temperatures.len();
        if n == 0 {
            return Ok(None);
        }
        if temperature.lt(&self.temperatures[0]) || self.temperatures[n - 1].lt(temperature) {
            return Ok(None);
        }
        let i = self.locate(temperature);
        proof {
            lemma_segment_brackets(t, x);
        }
        let t0 = self.temperatures[i];
        let v0 = self.values[i];
        if t0.same(temperature) {
            return Ok(Some(v0));
        }
        let r = line_through(
            &t0,
            &v0,
            &self.temperatures[i + 1],
            &self.values[i + 1],
            temperature,
        );
        proof {
            assert(t[i as int] < t[i + 1]);
            if r is Ok {
                lemma_interpolate_checked(t, v, x);
            }
        }
        match r {
            Ok(value) => Ok(Some(value)),
            Err(e) => Err(e),
        }
    }
}

/// The value at `x` of the straight line through `(t0, v0)` and `(t1, v1)`.
pub fn line_through(t0: &Rational, v0: &Rational, t1: &Rational, v1: &Rational, x: &Rational) -> (r:
    Result<Rational, ArithError>)
    ensures
        lift(r) == line_checked(t0@, v0@, t1@, v1@, x@),
        r matches Ok(v) ==> v@ == line_of(t0@, v0@, t1@, v1@, x@) && t0@ != t1@,
        r matches Err(e) ==> (e == ArithError::DivisionByZero ==> t0@ == t1@),
{
    let dx = match x.checked_sub(t0) {
        Ok(d) => d,
        Err(e) => {
            return Err(e);
        },
    };
    let width = match t1.checked_sub(t0) {
        Ok(w) => w,
        Err(e) => {
            return Err(e);
        },
    };
    let part = match dx.checked_div(&width) {
        Ok(p) => p,
        Err(e) => {
            return Err(e);
        },
    };
    let rise = match v1.checked_sub(v0) {
        Ok(r) => r,
        Err(e) => {
            return Err(e);
        },
    };
    let product = match rise.checked_mul(&part) {
        Ok(p) => p,
        Err(e) => {
            return Err(e);
        },
    };
    v0.checked_add(&product)
}

} // verus!
