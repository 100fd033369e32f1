//! Option orders, the slots that a question's options take when it is asked
//! more than once, and the greatest of a list of numbers.

use vstd::prelude::*;

verus! {

/// Slot `i` turned by `r` places in a ring of `k` slots.
pub open spec fn turned(i: int, r: int, k: int) -> int {
    if i + r < k {
        i + r
    } else {
        i + r - k
    }
}

/// The `r`-th order of `k` options: the rotations first, then the rotations
/// of the reversal.
pub open spec fn order_at(k: nat, r: int) -> Seq<usize> {
    Seq::new(
        k,
        |i: int|
            if r < k {
                turned(i, r, k as int) as usize
            } else {
                (k - 1 - turned(i, r - k, k as int)) as usize
            },
    )
}

/// How many distinct orders rotations and reversals give `k` options.
pub open spec fn distinct_orders(k: nat) -> nat {
    if k <= 1 {
        1
    } else if k == 2 {
        2
    } else {
        2 * k
    }
}

/// The first `n` orders of `k` options, as many as are distinct.
pub open spec fn orders_view(k: nat, n: nat) -> Seq<Seq<usize>> {
    Seq::new(
        if n < distinct_orders(k) {
            n
        } else {
            distinct_orders(k)
        },
        |r: int| order_at(k, r),
    )
}

/// The lists of a list of orders.
pub open spec fn lists(v: Seq<Vec<usize>>) -> Seq<Seq<usize>> {
    v.map_values(|o: Vec<usize>| o@)
}

/// Distinct option orders for a `k`-way question: the identity, its
/// rotations, then the reversals of those — `2k` orders for `k >= 3`, every
/// permutation for `k <= 2`. Returns at most `n`. Rotations move every option
/// through every slot, reversals flip the neighbours, which is what a
/// position-bias probe (or an average over orders) needs.
pub fn option_orders(k: usize, n: usize) -> (r: Vec<Vec<usize>>)
    requires
        2 * k <= usize::MAX,
    ensures
        lists(r@) == orders_view(k as nat, n as nat),
{
    let distinct: usize = if k <= 1 {
        1
    } else if k == 2 {
        2
    } else {
        2 * k
    };
    let count: usize = if n < distinct {
        n
    } else {
        distinct
    };
    let mut out: Vec<Vec<usize>> = Vec::new();
    let mut r: usize = 0;
    while r < count
        invariant
            0 <= r <= count,
            count <= distinct,
            distinct == distinct_orders(k as nat),
            2 * k <= usize::MAX,
            out@.len() == r,
            forall|j: int| 0 <= j < r ==> (#[trigger] out@[j])@ == order_at(k as nat, j),
        decreases count - r,
    {
        let shift: usize = if r < k {
            r
        } else {
            r - k
        };
        let mut o: Vec<usize> = Vec::new();
        let mut i: usize = 0;
        while i < k
            invariant
                0 <= i <= k,
                2 * k <= usize::MAX,
                k > 0 ==> r < 2 * k,
                shift == (if r < k {
                    r as int
                } else {
                    r - k
                }),
                o@ == order_at(k as nat, r as int).take(i as int),
            decreases k - i,
        {
            let t: usize = if i + shift < k {
                i + shift
            } else {
                i + shift - k
            };
            o.push(
                if r < k {
                    t
                } else {
                    k - 1 - t
                },
            );
            i += 1;
            assert(o@ =~= order_at(k as nat, r as int).take(i as int));
        }
        assert(o@ =~= order_at(k as nat, r as int));
        out.push(o);
        r += 1;
    }
    assert(lists(out@) =~= orders_view(k as nat, n as nat));
    out
}

/// The first order is the options' own.
pub proof fn the_first_order_is_the_identity(k: nat)
    ensures
        order_at(k, 0) == Seq::new(k, |i: int| i as usize),
{
    assert(order_at(k, 0) =~= Seq::new(k, |i: int| i as usize));
}

/// Asking for fewer orders gives the first of those that asking for more
/// gives: all of them, or exactly as many as were asked for. They begin with
/// the options' own order.
pub proof fn fewer_orders_are_a_prefix(k: nat, m: nat, n: nat)
    requires
        m <= n,
    ensures
        orders_view(k, m).len() == m || orders_view(k, m) == orders_view(k, n),
        orders_view(k, m).len() <= orders_view(k, n).len(),
        orders_view(k, m) == orders_view(k, n).take(orders_view(k, m).len() as int),
        m > 0 ==> orders_view(k, m).len() > 0 && orders_view(k, m)[0] == Seq::new(
            k,
            |i: int| i as usize,
        ),
{
    assert(orders_view(k, m) =~= orders_view(k, n).take(orders_view(k, m).len() as int));
    if m >= distinct_orders(k) {
        assert(orders_view(k, m) =~= orders_view(k, n));
    }
    the_first_order_is_the_identity(k);
}

/// Every order holds every option exactly once.
pub proof fn orders_are_permutations(k: nat, r: int)
    requires
        0 < k <= usize::MAX,
        0 <= r < distinct_orders(k),
    ensures
        order_at(k, r).len() == k,
        order_at(k, r).no_duplicates(),
        forall|i: int| 0 <= i < k ==> (#[trigger] order_at(k, r)[i]) < k,
        forall|o: usize| 0 <= o < k ==> #[trigger] order_at(k, r).contains(o),
{
    let s = order_at(k, r);
    assert forall|o: usize| 0 <= o < k implies #[trigger] s.contains(o) by {
        let i = if r < k {
            if o >= r {
                o - r
            } else {
                o - r + k
            }
        } else {
            let t = k - 1 - o;
            if t >= r - k {
                t - (r - k)
            } else {
                t - (r - k) + k
            }
        };
        assert(s[i] == o);
    }
}

/// No two orders of a question are the same.
pub proof fn orders_are_distinct(k: nat, a: int, b: int)
    requires
        0 < k <= usize::MAX,
        0 <= a < b < distinct_orders(k),
    ensures
        order_at(k, a) != order_at(k, b),
{
    let x = order_at(k, a);
    let y = order_at(k, b);
    if a < k && b >= k {
        assert(x[0] != y[0] || x[1] != y[1]);
    } else {
        assert(x[0] != y[0]);
    }
}

/// The size of a double given as its bit pattern, with its sign: greater for
/// the greater of two numbers, the same for the two zeros.
pub open spec fn signed_size(bits: u64) -> int {
    if bits < 0x8000_0000_0000_0000 {
        bits as int
    } else {
        0x8000_0000_0000_0000 - bits
    }
}

/// The double with this bit pattern is no number.
pub open spec fn is_nan(bits: u64) -> bool {
    signed_size(bits) > 0x7ff0_0000_0000_0000 || signed_size(bits) < -0x7ff0_0000_0000_0000
}

/// One double is greater than another; what is no number never is.
pub open spec fn greater(a: u64, b: u64) -> bool {
    !is_nan(a) && !is_nan(b) && signed_size(a) > signed_size(b)
}

fn size_of_double(bits: u64) -> (r: i64)
    ensures
        r == signed_size(bits),
{
    if bits < 0x8000_0000_0000_0000 {
        bits as i64
    } else {
        -((bits - 0x8000_0000_0000_0000) as i64)
    }
}

fn is_greater(a: u64, b: u64) -> (r: bool)
    ensures
        r == greater(a, b),
{
    let x: i64 = size_of_double(a);
    let y: i64 = size_of_double(b);
    let limit: i64 = 0x7ff0_0000_0000_0000;
    x <= limit && x >= -limit && y <= limit && y >= -limit && x > y
}

/// The place that holds the greatest of the first `n` numbers, taken from the
/// front: a later one only replaces it by being greater.
pub open spec fn argmax_view(p: Seq<u64>, n: nat) -> nat
    decreases n,
{
    if n == 0 {
        0
    } else {
        let best = argmax_view(p, (n - 1) as nat);
        if greater(p[n - 1], p[best as int]) {
            (n - 1) as nat
        } else {
            best
        }
    }
}

/// The place of the greatest of numbers given as bit patterns of doubles, the
/// first of equal ones.
pub fn argmax(p: &Vec<u64>) -> (r: usize)
    ensures
        r == argmax_view(p@, p@.len()),
        p@.len() > 0 ==> r < p@.len(),
{
    let mut best: usize = 0;
    let mut i: usize = 0;
    while i < p.len()
        invariant
            0 <= i <= p@.len(),
            best == argmax_view(p@, i as nat),
            best < i || best == 0,
        decreases p@.len() - i,
    {
        if is_greater(p[i], p[best]) {
            best = i;
        }
        i += 1;
    }
    best
}

/// Where every entry is a number, none is greater than the one that was
/// found, and every one before it is less.
pub proof fn the_first_greatest_is_found(p: Seq<u64>, n: nat, i: int)
    requires
        0 <= i < n <= p.len(),
        forall|j: int| 0 <= j < p.len() ==> !is_nan(#[trigger] p[j]),
    ensures
        0 <= argmax_view(p, n) < n,
        !greater(p[i], p[argmax_view(p, n) as int]),
        i < argmax_view(p, n) ==> greater(p[argmax_view(p, n) as int], p[i]),
    decreases n,
{
    let m = (n - 1) as nat;
    assert(argmax_view(p, 0) == 0);
    if m > 0 {
        let best = argmax_view(p, m);
        the_first_greatest_is_found(p, m, 0);
        assert(!is_nan(p[best as int]) && !is_nan(p[i]) && !is_nan(p[n - 1]));
        if i < m {
            the_first_greatest_is_found(p, m, i);
        }
    }
}

/// The places of `n` labelled rows that calibrate: the even ones.
pub open spec fn fit_places(n: nat) -> Seq<usize> {
    Seq::new(n / 2 + n % 2, |i: int| (2 * i) as usize)
}

/// The places of `n` labelled rows that are reported: the odd ones.
pub open spec fn report_places(n: nat) -> Seq<usize> {
    Seq::new(n / 2, |i: int| (2 * i + 1) as usize)
}

/// The rows at the given places.
pub open spec fn rows_at<T>(rows: Seq<T>, places: Seq<usize>) -> Seq<T> {
    places.map_values(|i: usize| rows[i as int])
}

/// What is fitted does not depend on what is reported: two data sets that agree
/// on the even rows give the same rows to fit on.
pub proof fn the_fit_sees_even_rows_alone<T>(a: Seq<T>, b: Seq<T>)
    requires
        a.len() == b.len() <= usize::MAX,
        forall|i: int| 0 <= i < a.len() && i % 2 == 0 ==> #[trigger] a[i] == b[i],
    ensures
        rows_at(a, fit_places(a.len())) == rows_at(b, fit_places(b.len())),
{
    let places = fit_places(a.len());
    assert forall|i: int| 0 <= i < places.len() implies #[trigger] rows_at(a, places)[i] == rows_at(
        b,
        places,
    )[i] by {
        assert(places[i] == 2 * i);
        assert(a[2 * i] == b[2 * i]);
    }
    assert(rows_at(a, places) =~= rows_at(b, places));
}

/// What is reported does not depend on what is fitted: two data sets that agree
/// on the odd rows give the same rows to report on.
pub proof fn the_report_sees_odd_rows_alone<T>(a: Seq<T>, b: Seq<T>)
    requires
        a.len() == b.len() <= usize::MAX,
        forall|i: int| 0 <= i < a.len() && i % 2 == 1 ==> #[trigger] a[i] == b[i],
    ensures
        rows_at(a, report_places(a.len())) == rows_at(b, report_places(b.len())),
{
    let places = report_places(a.len());
    assert forall|i: int| 0 <= i < places.len() implies #[trigger] rows_at(a, places)[i] == rows_at(
        b,
        places,
    )[i] by {
        assert(places[i] == 2 * i + 1);
        assert(a[2 * i + 1] == b[2 * i + 1]);
    }
    assert(rows_at(a, places) =~= rows_at(b, places));
}

/// Every row is fitted on or reported, and none is both; of an odd number of
/// rows one more is fitted on.
pub proof fn every_row_has_one_use(n: nat, i: int)
    requires
        0 <= i < n <= usize::MAX,
    ensures
        fit_places(n).contains(i as usize) != report_places(n).contains(i as usize),
        fit_places(n).len() == (n + 1) / 2,
        report_places(n).len() == n / 2,
{
    if i % 2 == 0 {
        assert(fit_places(n)[i / 2] == i);
    } else {
        assert(report_places(n)[i / 2] == i);
    }
    assert forall|j: int| 0 <= j < fit_places(n).len() implies #[trigger] fit_places(n)[j] == 2
        * j by {}
    assert forall|j: int| 0 <= j < report_places(n).len() implies #[trigger] report_places(n)[j]
        == 2 * j + 1 by {}
}

/// The split of `n` labelled rows: the even places calibrate, the odd ones are
/// reported.
pub fn calibration_split(n: usize) -> (r: (Vec<usize>, Vec<usize>))
    ensures
        r.0@ == fit_places(n as nat),
        r.1@ == report_places(n as nat),
{
    let mut even: Vec<usize> = Vec::new();
    let mut odd: Vec<usize> = Vec::new();
    let mut i: usize = 0;
    while i < n
        invariant
            0 <= i <= n,
            even@ == fit_places(i as nat),
            odd@ == report_places(i as nat),
        decreases n - i,
    {
        if i % 2 == 0 {
            even.push(i);
        } else {
            odd.push(i);
        }
        i += 1;
        assert(even@ =~= fit_places(i as nat));
        assert(odd@ =~= report_places(i as nat));
    }
    (even, odd)
}

/// Every order goes round the options: the first ones step forward by one and
/// the others backward by one, from every option once.
pub proof fn orders_go_round(k: nat, r: int, i: int)
    requires
        0 < k <= usize::MAX,
        0 <= r < 2 * k,
        0 <= i < k - 1,
    ensures
        r < k ==> order_at(k, r)[0] == r,
        r < k ==> order_at(k, r)[i + 1] == (if order_at(k, r)[i] + 1 == k {
            0
        } else {
            order_at(k, r)[i] + 1
        }),
        r >= k ==> order_at(k, r)[i + 1] == (if order_at(k, r)[i] == 0 {
            k - 1
        } else {
            order_at(k, r)[i] - 1
        }),
        r >= k ==> order_at(k, r)[0] == 2 * k - 1 - r,
{
}

/// Numbers compare as the doubles that they are the bits of: positive ones by
/// their bits, negative ones the other way round, a positive one above a
/// negative one, the zeros alike; and what is no number is neither above nor
/// below anything.
pub proof fn doubles_are_compared(a: u64, b: u64)
    ensures
        a <= 0x7ff0_0000_0000_0000 && b <= 0x7ff0_0000_0000_0000 ==> (greater(a, b) <==> a > b),
        0x8000_0000_0000_0000 <= a <= 0xfff0_0000_0000_0000 && 0x8000_0000_0000_0000 <= b
            <= 0xfff0_0000_0000_0000 ==> (greater(a, b) <==> a < b),
        a <= 0x7ff0_0000_0000_0000 && 0x8000_0000_0000_0000 <= b <= 0xfff0_0000_0000_0000 ==> (
        greater(a, b) <==> (a != 0 || b != 0x8000_0000_0000_0000)) && !greater(b, a),
        0x7ff0_0000_0000_0000 < a < 0x8000_0000_0000_0000 || a > 0xfff0_0000_0000_0000 ==> is_nan(a)
            && !greater(a, b) && !greater(b, a),
        is_nan(a) ==> 0x7ff0_0000_0000_0000 < a < 0x8000_0000_0000_0000 || a
            > 0xfff0_0000_0000_0000,
{
}

} // verus!
