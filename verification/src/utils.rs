//! Index utilities: sorting permutations and cartesian products.
use vstd::prelude::*;
use vstd::relations::{sorted_by, total_ordering};

verus! {

broadcast use {vstd::seq_lib::to_multiset_update, vstd::multiset::group_multiset_axioms};

/// `i` comes before `j` when ordering indices by their keys, ties broken by index.
pub open spec fn key_before(data: Seq<i64>, i: usize, j: usize) -> bool {
    data[i as int] < data[j as int] || (data[i as int] == data[j as int] && i < j)
}

/// `r` lists every index of `data` once, in ascending order of keys, equal keys in
/// ascending order of index (a stable sort).
pub open spec fn is_stable_argsort(data: Seq<i64>, r: Seq<usize>) -> bool {
    &&& r.len() == data.len()
    &&& forall|p: int| 0 <= p < r.len() ==> r[p] < data.len()
    &&& forall|p: int, q: int|
        #![trigger r[p], r[q]]
        0 <= p < q < r.len() ==> key_before(data, r[p], r[q])
}

/// Orders indices by their keys, ties broken by index: a total order on indices.
pub open spec fn index_leq(data: Seq<i64>) -> spec_fn(usize, usize) -> bool {
    |i: usize, j: usize| i == j || key_before(data, i, j)
}

/// The indices `0..n` in increasing order.
pub open spec fn index_range(n: nat) -> Seq<usize> {
    Seq::new(n, |i: int| i as usize)
}

/// The stable argsort of `data`: the indices `0..data.len()` sorted by `index_leq`.
pub open spec fn stable_argsort(data: Seq<i64>) -> Seq<usize> {
    index_range(data.len()).sort_by(index_leq(data))
}

/// Ordering indices by key, ties by index, is a total order.
pub proof fn lemma_index_leq_total(data: Seq<i64>)
    ensures
        total_ordering(index_leq(data)),
{
}

/// Returns the indices that would sort the input slice; equal values keep their order.
pub fn argsort(data: &[i64]) -> (indices: Vec<usize>)
    ensures
        is_stable_argsort(data@, indices@),
        forall|i: usize| i < data@.len() ==> #[trigger] indices@.contains(i),
        indices@ == stable_argsort(data@),
{
    let n = data.len();
    let mut r: Vec<usize> = Vec::new();
    let mut k: usize = 0;
    while k < n
        invariant
            k <= n,
            n == data.len(),
            r.len() == k,
            forall|p: int| 0 <= p < k ==> r[p] == p,
            r@ == index_range(k as nat),
        decreases n - k,
    {
        r.push(k);
        k = k + 1;
        assert(r@ =~= index_range(k as nat));
    }
    let ghost identity = index_range(n as nat);
    let mut i: usize = 1;
    while i < n
        invariant
            1 <= i || n == 0,
            i <= n || n == 0,
            n == data.len(),
            r.len() == n,
            forall|p: int| 0 <= p < n ==> r[p] < n,
            forall|p: int| i <= p < n ==> r[p] == p,
            forall|p: int| 0 <= p < i && p < n ==> r[p] < i,
            forall|p: int, q: int| 0 <= p < q < i && q < n ==> key_before(data@, r[p], r[q]),
            identity == index_range(n as nat),
            r@.to_multiset() == identity.to_multiset(),
        decreases n - i,
    {
        let mut j: usize = i;
        while j > 0 && data[r[j - 1]] > data[r[j]]
            invariant
                0 <= j <= i < n,
                n == data.len(),
                r.len() == n,
                r[j as int] == i,
                forall|p: int| 0 <= p < n ==> r[p] < n,
                forall|p: int| i < p < n ==> r[p] == p,
                forall|p: int| 0 <= p <= i && p != j ==> r[p] < i,
                forall|p: int, q: int|
                    0 <= p < q <= i && p != j && q != j ==> key_before(data@, r[p], r[q]),
                forall|q: int| j < q <= i ==> key_before(data@, r[j as int], r[q]),
                r@.to_multiset() == identity.to_multiset(),
            decreases j,
        {
            let a = r[j - 1];
            let b = r[j];
            let ghost before = r@;
            r.set(j - 1, b);
            let ghost mid = r@;
            r.set(j, a);
            proof {
                assert(mid == before.update(j - 1, b));
                assert(r@ == mid.update(j as int, a));
                assert(mid.to_multiset() == before.to_multiset().insert(b).remove(a));
                assert(r@.to_multiset() == mid.to_multiset().insert(a).remove(b));
                before.to_multiset_ensures();
                assert(before[j - 1] == a && before[j as int] == b);
                assert(before.contains(a) && before.contains(b));
                assert(before.to_multiset().count(a) > 0);
                assert(before.to_multiset().count(b) > 0);
                assert(r@.to_multiset() =~= before.to_multiset());
            }
            j = j - 1;
        }
        proof {
            if j > 0 {
                assert(key_before(data@, r[j - 1], r[j as int]));
            }
            assert forall|p: int, q: int| 0 <= p < q <= i implies key_before(data@, r[p], r[q]) by {
                if q == j && p < j - 1 {
                    assert(key_before(data@, r[p], r[j - 1]));
                    assert(key_before(data@, r[j - 1], r[j as int]));
                }
            }
        }
        i = i + 1;
    }
    proof {
        let leq = index_leq(data@);
        lemma_index_leq_total(data@);
        identity.lemma_sort_by_ensures(leq);
        assert(sorted_by(r@, leq));
        vstd::seq_lib::lemma_sorted_unique(r@, identity.sort_by(leq), leq);
        assert forall|x: usize| x < data@.len() implies #[trigger] r@.contains(x) by {
            assert(identity[x as int] == x);
            identity.to_multiset_ensures();
            r@.to_multiset_ensures();
            assert(identity.to_multiset().count(x) > 0);
        }
    }
    r
}

/// The usual order on `i32` values.
pub open spec fn value_leq() -> spec_fn(i32, i32) -> bool {
    |a: i32, b: i32| a <= b
}

/// Returns a copy of the values in ascending order.
pub fn sorted_copy(values: &[i32]) -> (sorted: Vec<i32>)
    ensures
        sorted@ == values@.sort_by(value_leq()),
{
    let n = values.len();
    let mut r: Vec<i32> = Vec::new();
    let mut k: usize = 0;
    while k < n
        invariant
            k <= n,
            n == values.len(),
            r@ == values@.subrange(0, k as int),
        decreases n - k,
    {
        r.push(values[k]);
        k = k + 1;
        assert(r@ =~= values@.subrange(0, k as int));
    }
    assert(r@ =~= values@);
    let mut i: usize = 1;
    while i < n
        invariant
            n == values.len(),
            r.len() == n,
            r@.to_multiset() == values@.to_multiset(),
            forall|p: int, q: int| 0 <= p < q < i && q < n ==> r[p] <= r[q],
        decreases n - i,
    {
        let mut j: usize = i;
        while j > 0 && r[j - 1] > r[j]
            invariant
                0 <= j <= i < n,
                r.len() == n,
                r@.to_multiset() == values@.to_multiset(),
                forall|p: int, q: int| 0 <= p < q <= i && p != j && q != j ==> r[p] <= r[q],
                forall|q: int| j < q <= i ==> r[j as int] <= r[q],
                forall|p: int, q: int| 0 <= p < j && j < q <= i ==> r[p] <= r[q],
            decreases j,
        {
            let a = r[j - 1];
            let b = r[j];
            let ghost before = r@;
            r.set(j - 1, b);
            let ghost mid = r@;
            r.set(j, a);
            proof {
                assert(mid == before.update(j - 1, b));
                assert(r@ == mid.update(j as int, a));
                before.to_multiset_ensures();
                assert(before[j - 1] == a && before[j as int] == b);
                assert(before.contains(a) && before.contains(b));
                assert(r@.to_multiset() =~= before.to_multiset());
            }
            j = j - 1;
        }
        i = i + 1;
    }
    proof {
        let leq = value_leq();
        values@.lemma_sort_by_ensures(leq);
        assert(sorted_by(r@, leq));
        vstd::seq_lib::lemma_sorted_unique(r@, values@.sort_by(leq), leq);
    }
    r
}

/// Filtering one more element of a sequence extends the filtered prefix by that element
/// when it passes.
pub proof fn lemma_filter_take_step<T>(s: Seq<T>, pred: spec_fn(T) -> bool, r: int)
    requires
        0 <= r < s.len(),
    ensures
        s.take(r + 1).filter(pred) == if pred(s[r]) {
            s.take(r).filter(pred).push(s[r])
        } else {
            s.take(r).filter(pred)
        },
{
    let taken = s.take(r + 1);
    assert(taken.drop_last() =~= s.take(r));
    assert(taken.last() == s[r]);
    reveal(Seq::filter);
}

/// A list of distinct ids below `n` has at most `n` entries.
pub proof fn lemma_distinct_below(s: Seq<usize>, n: nat)
    requires
        s.no_duplicates(),
        forall|k: int| 0 <= k < s.len() ==> #[trigger] s[k] < n,
    ensures
        s.len() <= n,
    decreases n,
{
    if n == 0 {
        if s.len() > 0 {
            assert(s[0] < n);
        }
    } else if s.contains((n - 1) as usize) {
        let i = choose|i: int| 0 <= i < s.len() && s[i] == (n - 1) as usize;
        let r = s.remove(i);
        assert forall|k: int| 0 <= k < r.len() implies #[trigger] r[k] < n - 1 by {
            if k < i {
                assert(r[k] == s[k]);
            } else {
                assert(r[k] == s[k + 1]);
            }
        }
        assert(r.no_duplicates()) by {
            assert forall|a: int, b: int| 0 <= a < r.len() && 0 <= b < r.len() && a != b implies r[a]
                != r[b] by {
                let sa = if a < i { a } else { a + 1 };
                let sb = if b < i { b } else { b + 1 };
                assert(r[a] == s[sa]);
                assert(r[b] == s[sb]);
            }
        }
        lemma_distinct_below(r, (n - 1) as nat);
    } else {
        assert forall|k: int| 0 <= k < s.len() implies #[trigger] s[k] < n - 1 by {
            assert(s[k] != (n - 1) as usize);
        }
        lemma_distinct_below(s, (n - 1) as nat);
    }
}

/// A list of `n` distinct ids below `n` holds every id below `n`.
pub proof fn lemma_distinct_covers(s: Seq<usize>, n: nat, v: usize)
    requires
        s.len() == n,
        s.no_duplicates(),
        forall|k: int| 0 <= k < s.len() ==> #[trigger] s[k] < n,
        v < n,
    ensures
        s.contains(v),
{
    if !s.contains(v) {
        let lowered = Seq::new(s.len(), |k: int| if s[k] > v { (s[k] - 1) as usize } else { s[k] });
        assert forall|k: int| 0 <= k < lowered.len() implies #[trigger] lowered[k] < n - 1 by {
            assert(s[k] != v);
        }
        assert(lowered.no_duplicates()) by {
            assert forall|a: int, b: int|
                0 <= a < lowered.len() && 0 <= b < lowered.len() && a != b implies lowered[a]
                != lowered[b] by {
                assert(s[a] != v && s[b] != v);
                assert(s[a] != s[b]);
            }
        }
        lemma_distinct_below(lowered, (n - 1) as nat);
    }
}

/// A list of `n` ids below `n` that holds every id below `n` holds each once.
pub proof fn lemma_covering_is_distinct(s: Seq<usize>, n: nat)
    requires
        s.len() == n,
        n <= usize::MAX,
        forall|k: int| 0 <= k < s.len() ==> #[trigger] s[k] < n,
        forall|v: usize| v < n ==> #[trigger] s.contains(v),
    ensures
        s.no_duplicates(),
{
    if !s.no_duplicates() {
        let (a, b) = choose|a: int, b: int| 0 <= a < s.len() && 0 <= b < s.len() && a != b && s[a] == s[b];
        let r = s.remove(b);
        assert forall|v: usize| v < n implies r.contains(v) by {
            assert(s.contains(v));
            let k = choose|k: int| 0 <= k < s.len() && s[k] == v;
            let k2 = if k == b { a } else { k };
            assert(s[k2] == v);
            let kr = if k2 < b { k2 } else { k2 - 1 };
            assert(r[kr] == v);
        }
        let idx = Seq::new(n, |v: int| (choose|k: int| 0 <= k < r.len() && r[k] == v as usize) as usize);
        assert forall|v: int| 0 <= v < n implies #[trigger] idx[v] < n - 1 && r[idx[v] as int] == v as usize by {
            assert(r.contains(v as usize));
            let k = choose|k: int| 0 <= k < r.len() && r[k] == v as usize;
            assert(idx[v] == k as usize);
        }
        assert(idx.no_duplicates()) by {
            assert forall|x: int, y: int| 0 <= x < n && 0 <= y < n && x != y implies idx[x] != idx[y] by {
                assert(r[idx[x] as int] == x as usize);
                assert(r[idx[y] as int] == y as usize);
            }
        }
        lemma_distinct_below(idx, (n - 1) as nat);
    }
}

/// A strictly increasing list of `n` values below `n` is `0, 1, .., n - 1`.
pub proof fn lemma_increasing_is_identity(v: Seq<int>, n: nat)
    requires
        v.len() == n,
        forall|k: int| 0 <= k < n ==> 0 <= #[trigger] v[k] < n,
        forall|a: int, b: int| 0 <= a < b < n ==> v[a] < v[b],
    ensures
        forall|k: int| 0 <= k < n ==> #[trigger] v[k] == k,
{
    assert forall|k: int| 0 <= k < n implies #[trigger] v[k] >= k by {
        lemma_increasing_lower(v, n, k);
    }
    assert forall|k: int| 0 <= k < n implies #[trigger] v[k] <= k by {
        lemma_increasing_upper(v, n, k);
    }
}

proof fn lemma_increasing_lower(v: Seq<int>, n: nat, k: int)
    requires
        v.len() == n,
        0 <= k < n,
        forall|k: int| 0 <= k < n ==> 0 <= #[trigger] v[k] < n,
        forall|a: int, b: int| 0 <= a < b < n ==> v[a] < v[b],
    ensures
        v[k] >= k,
    decreases k,
{
    if k > 0 {
        lemma_increasing_lower(v, n, k - 1);
    }
}

proof fn lemma_increasing_upper(v: Seq<int>, n: nat, k: int)
    requires
        v.len() == n,
        0 <= k < n,
        forall|k: int| 0 <= k < n ==> 0 <= #[trigger] v[k] < n,
        forall|a: int, b: int| 0 <= a < b < n ==> v[a] < v[b],
    ensures
        v[k] <= k,
    decreases n - k,
{
    if k < n - 1 {
        lemma_increasing_upper(v, n, k + 1);
    }
}

/// `base^exp` as an integer.
pub open spec fn pow_nat(base: nat, exp: nat) -> nat
    decreases exp,
{
    if exp == 0 {
        1
    } else {
        base * pow_nat(base, (exp - 1) as nat)
    }
}

/// The contents of each row of a list of rows.
pub open spec fn rows_view<T>(rows: Seq<Vec<T>>) -> Seq<Seq<T>> {
    Seq::new(rows.len(), |i: int| rows[i]@)
}

/// Computes `base^exp`.
pub fn pow_usize(base: usize, exp: usize) -> (r: usize)
    requires
        base > 0,
        pow_nat(base as nat, exp as nat) <= usize::MAX,
    ensures
        r == pow_nat(base as nat, exp as nat),
{
    let mut r: usize = 1;
    let mut k: usize = 0;
    while k < exp
        invariant
            k <= exp,
            base > 0,
            r == pow_nat(base as nat, k as nat),
            pow_nat(base as nat, exp as nat) <= usize::MAX,
        decreases exp - k,
    {
        proof {
            lemma_pow_monotone(base as nat, (k + 1) as nat, exp as nat);
        }
        assert(r * base == pow_nat(base as nat, (k + 1) as nat)) by (nonlinear_arith)
            requires
                r == pow_nat(base as nat, k as nat),
                pow_nat(base as nat, (k + 1) as nat) == base * pow_nat(base as nat, k as nat),
        ;
        r = r * base;
        k = k + 1;
    }
    r
}

/// Entry `(i, j)` of the cartesian product of `values` with itself `n` times: the `j`-th
/// base-`len` digit of `i`, most significant first, used as an index into `values`.
pub open spec fn product_entry<T>(values: Seq<T>, n: nat, i: nat, j: nat) -> T {
    values[((i / pow_nat(values.len(), (n - j - 1) as nat)) % values.len()) as int]
}

/// Generates the cartesian product of a slice of values repeated `num_columns` times,
/// one row per combination, the last column varying fastest.
#[verifier::spinoff_prover]
pub fn cartesian_product<T: Copy>(values: &[T], num_columns: usize) -> (rows: Vec<Vec<T>>)
    requires
        pow_nat(values.len() as nat, num_columns as nat) <= usize::MAX,
    ensures
        rows.len() == pow_nat(values.len() as nat, num_columns as nat),
        forall|r: int| 0 <= r < rows.len() ==> #[trigger] rows[r].len() == num_columns,
        forall|r: int, j: int|
            0 <= r < rows.len() && 0 <= j < num_columns ==> #[trigger] rows[r][j] == product_entry(
                values@,
                num_columns as nat,
                r as nat,
                j as nat,
            ),
{
    let base = values.len();
    if base == 0 {
        // No values: one empty row when there are no columns, else no rows at all.
        let mut rows: Vec<Vec<T>> = Vec::new();
        if num_columns == 0 {
            rows.push(Vec::new());
        } else {
            assert(pow_nat(0, num_columns as nat) == 0 * pow_nat(0, (num_columns - 1) as nat));
        }
        return rows;
    }
    let ghost b = base as nat;
    let ghost nc = num_columns as nat;
    // powers[k] = base^k for k <= num_columns
    let mut powers: Vec<usize> = Vec::new();
    let mut p: usize = 1;
    let mut k: usize = 0;
    proof {
        lemma_pow_monotone(b, 0, nc);
    }
    while k < num_columns
        invariant
            k <= num_columns,
            base == values.len(),
            base > 0,
            b == base as nat,
            nc == num_columns as nat,
            pow_nat(b, nc) <= usize::MAX,
            powers.len() == k,
            forall|t: int| 0 <= t < k ==> powers[t] == pow_nat(b, t as nat),
            p == pow_nat(b, k as nat),
        decreases num_columns - k,
    {
        powers.push(p);
        proof {
            lemma_pow_monotone(b, (k + 1) as nat, nc);
        }
        assert(p * base == pow_nat(b, (k + 1) as nat)) by (nonlinear_arith)
            requires
                p == pow_nat(b, k as nat),
                pow_nat(b, (k + 1) as nat) == b * pow_nat(b, k as nat),
                b == base,
        ;
        p = p * base;
        k = k + 1;
    }
    powers.push(p);
    let total_rows = powers[num_columns];
    let mut rows: Vec<Vec<T>> = Vec::new();
    let mut i: usize = 0;
    while i < total_rows
        invariant
            i <= total_rows,
            total_rows == pow_nat(b, nc),
            base == values.len(),
            base > 0,
            b == base as nat,
            nc == num_columns as nat,
            powers.len() == num_columns + 1,
            forall|t: int| 0 <= t <= num_columns ==> powers[t] == pow_nat(b, t as nat),
            rows.len() == i,
            forall|r: int|
                0 <= r < i ==> #[trigger] rows[r].len() == num_columns && forall|j: int|
                    0 <= j < num_columns ==> rows[r][j] == product_entry(
                        values@,
                        num_columns as nat,
                        r as nat,
                        j as nat,
                    ),
        decreases total_rows - i,
    {
        let mut row: Vec<T> = Vec::new();
        let mut j: usize = 0;
        while j < num_columns
            invariant
                j <= num_columns,
                i < total_rows,
                base == values.len(),
                base > 0,
                b == base as nat,
                nc == num_columns as nat,
                powers.len() == num_columns + 1,
                forall|t: int| 0 <= t <= num_columns ==> powers[t] == pow_nat(b, t as nat),
                row.len() == j,
                forall|jj: int|
                    0 <= jj < j ==> row[jj] == product_entry(values@, nc, i as nat, jj as nat),
            decreases num_columns - j,
        {
            let pw = powers[num_columns - j - 1];
            proof {
                lemma_pow_positive(b, (num_columns - j - 1) as nat);
            }
            let index = (i / pw) % base;
            row.push(values[index]);
            j = j + 1;
        }
        rows.push(row);
        i = i + 1;
    }
    assert forall|r: int, j: int|
        0 <= r < rows.len() && 0 <= j < num_columns implies #[trigger] rows[r][j] == product_entry(
        values@,
        num_columns as nat,
        r as nat,
        j as nat,
    ) by {
        assert(rows[r].len() == num_columns);
    }
    rows
}

/// Powers of a positive base are positive.
pub proof fn lemma_pow_positive(b: nat, e: nat)
    requires
        b > 0,
    ensures
        pow_nat(b, e) > 0,
    decreases e,
{
    if e > 0 {
        lemma_pow_positive(b, (e - 1) as nat);
        assert(b * pow_nat(b, (e - 1) as nat) > 0) by (nonlinear_arith)
            requires
                b > 0,
                pow_nat(b, (e - 1) as nat) > 0,
        ;
    }
}

/// Powers of a positive base do not decrease with the exponent.
pub proof fn lemma_pow_monotone(b: nat, e1: nat, e2: nat)
    requires
        b > 0,
        e1 <= e2,
    ensures
        pow_nat(b, e1) <= pow_nat(b, e2),
    decreases e2,
{
    if e1 < e2 {
        lemma_pow_monotone(b, e1, (e2 - 1) as nat);
        lemma_pow_positive(b, (e2 - 1) as nat);
        assert(pow_nat(b, (e2 - 1) as nat) <= b * pow_nat(b, (e2 - 1) as nat)) by (nonlinear_arith)
            requires
                b > 0,
        ;
    }
}

} // verus!
