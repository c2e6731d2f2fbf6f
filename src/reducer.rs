use vstd::prelude::*;

verus! {

/// Why a reduction produced no final result.
#[derive(Debug, Clone, Copy, PartialEq, Eq, Structural)]
pub enum ReduceError {
    /// The worker count is zero or larger than the sequence.
    ConfigurationError,
    /// An element of the sequence is not an ASCII base-10 digit.
    InvalidDigitError,
}

/// `c` is one of the characters `'0'` to `'9'`.
pub open spec fn is_digit(c: char) -> bool {
    '0' <= c && c <= '9'
}

/// The value of the digit character `c`.
pub open spec fn digit_value(c: char) -> int {
    c as int - '0' as int
}

/// Every element of `s` is a digit.
pub open spec fn all_digits(s: Seq<char>) -> bool {
    forall|i: int| 0 <= i < s.len() ==> is_digit(#[trigger] s[i])
}

/// The sum of the digit values in `s`.
pub open spec fn digit_sum(s: Seq<char>) -> int
    decreases s.len(),
{
    if s.len() == 0 {
        0
    } else {
        digit_sum(s.drop_last()) + digit_value(s.last())
    }
}

/// The value of a digit character, or `None` for any other character.
pub fn digit_of(c: char) -> (r: Option<u64>)
    ensures
        r == (if is_digit(c) { Some(digit_value(c) as u64) } else { None::<u64> }),
{
    if '0' <= c && c <= '9' {
        Some((c as u32 - '0' as u32) as u64)
    } else {
        None
    }
}

/// Where chunk `k` of a sequence of length `n` split among `w` workers
/// begins: every chunk but the last has `n / w` elements, and the last one
/// ends at `n`, so `boundary(n, w, w) == n`.
pub open spec fn boundary(n: int, w: int, k: int) -> int {
    if k >= w {
        n
    } else {
        k * (n / w)
    }
}

/// Chunk `k` of `s` split among `w` workers.
pub open spec fn chunk(s: Seq<char>, w: int, k: int) -> Seq<char> {
    s.subrange(boundary(s.len() as int, w, k), boundary(s.len() as int, w, k + 1))
}

/// The `w` chunks of `s`, in order.
pub open spec fn chunks(s: Seq<char>, w: int) -> Seq<Seq<char>> {
    Seq::new(w as nat, |k: int| chunk(s, w, k))
}

/// What each vector of `v` holds.
pub open spec fn views(v: Seq<Vec<char>>) -> Seq<Seq<char>> {
    v.map_values(|c: Vec<char>| c@)
}

/// Chunk boundaries rise by at least `n / w` and stay within `0..=n`.
proof fn lemma_boundary_step(n: int, w: int, k: int)
    requires
        1 <= w <= n,
        0 <= k < w,
    ensures
        0 <= boundary(n, w, k),
        boundary(n, w, k) + n / w <= boundary(n, w, k + 1) <= n,
        n / w >= 1,
{
    let q = n / w;
    vstd::arithmetic::div_mod::lemma_fundamental_div_mod(n, w);
    vstd::arithmetic::div_mod::lemma_mod_pos_bound(n, w);
    assert(q >= 1) by {
        vstd::arithmetic::div_mod::lemma_div_is_ordered(w, n, w);
        vstd::arithmetic::div_mod::lemma_div_by_self(w);
    }
    assert(0 <= k * q) by (nonlinear_arith)
        requires 0 <= k, q >= 1;
    assert((k + 1) * q == k * q + q) by (nonlinear_arith);
    assert((k + 1) * q <= w * q) by (nonlinear_arith)
        requires k + 1 <= w, q >= 1;
    assert(w * q == n - n % w) by (nonlinear_arith)
        requires n == w * (n / w) + n % w, q == n / w;
}

/// The exec form of `boundary`.
fn boundary_of(n: usize, w: usize, k: usize) -> (r: usize)
    requires
        1 <= w <= n,
        k <= w,
    ensures
        r == boundary(n as int, w as int, k as int),
{
    if k >= w {
        n
    } else {
        proof {
            lemma_boundary_step(n as int, w as int, k as int);
        }
        k * (n / w)
    }
}

/// Splits `s` into `w` contiguous chunks: all but the last hold
/// `s.len() / w` elements, and the last one takes what remains.
pub fn partition(s: &[char], w: usize) -> (r: Vec<Vec<char>>)
    requires
        1 <= w <= s@.len(),
    ensures
        views(r@) == chunks(s@, w as int),
        r@.len() == w,
        views(r@).flatten() == s@,
        forall|k: int| 0 <= k < w ==> (#[trigger] r@[k])@.len() > 0,
{
    let n = s.len();
    let mut r: Vec<Vec<char>> = Vec::new();
    for k in 0..w
        invariant
            n == s@.len(),
            1 <= w <= n,
            r@.len() == k,
            forall|j: int| 0 <= j < k ==> (#[trigger] r@[j])@ == chunk(s@, w as int, j),
    {
        let lo = boundary_of(n, w, k);
        let hi = boundary_of(n, w, k + 1);
        proof {
            lemma_boundary_step(n as int, w as int, k as int);
        }
        let mut c: Vec<char> = Vec::new();
        for i in lo..hi
            invariant
                n == s@.len(),
                lo <= hi <= n,
                c@ == s@.subrange(lo as int, i as int),
        {
            c.push(s[i]);
            assert(c@ =~= s@.subrange(lo as int, i + 1));
        }
        r.push(c);
    }
    assert(views(r@) =~= chunks(s@, w as int));
    proof {
        lemma_partition_round_trip(s@, w as int);
        lemma_chunks_non_empty(s@, w as int);
        assert forall|k: int| 0 <= k < w implies (#[trigger] r@[k])@.len() > 0 by {
            assert(views(r@)[k] == r@[k]@);
        }
    }
    r
}

/// The chunks before chunk `j`, concatenated, are the prefix of `s` that
/// ends where chunk `j` begins.
proof fn lemma_chunks_prefix(s: Seq<char>, w: int, j: int)
    requires
        1 <= w <= s.len(),
        0 <= j <= w,
    ensures
        chunks(s, w).take(j).flatten_alt() == s.subrange(0, boundary(s.len() as int, w, j)),
    decreases j,
{
    let n = s.len() as int;
    if j == 0 {
        assert(chunks(s, w).take(0) =~= Seq::<Seq<char>>::empty());
        assert(s.subrange(0, 0) =~= Seq::<char>::empty());
    } else {
        lemma_chunks_prefix(s, w, j - 1);
        lemma_boundary_step(n, w, j - 1);
        assert(chunks(s, w).take(j).drop_last() =~= chunks(s, w).take(j - 1));
        assert(s.subrange(0, boundary(n, w, j)) =~= s.subrange(0, boundary(n, w, j - 1))
            + chunk(s, w, j - 1));
    }
}

/// Concatenating the chunks of `s`, in order, gives `s` back.
pub proof fn lemma_partition_round_trip(s: Seq<char>, w: int)
    requires
        1 <= w <= s.len(),
    ensures
        chunks(s, w).flatten() == s,
{
    lemma_chunks_prefix(s, w, w);
    assert(chunks(s, w).take(w) =~= chunks(s, w));
    chunks(s, w).lemma_flatten_and_flatten_alt_are_equivalent();
    assert(s.subrange(0, s.len() as int) =~= s);
}

/// There are exactly `w` chunks, and none of them is empty.
pub proof fn lemma_chunks_non_empty(s: Seq<char>, w: int)
    requires
        1 <= w <= s.len(),
    ensures
        chunks(s, w).len() == w,
        forall|k: int| 0 <= k < w ==> (#[trigger] chunks(s, w)[k]).len() > 0,
{
    assert forall|k: int| 0 <= k < w implies (#[trigger] chunks(s, w)[k]).len() > 0 by {
        lemma_boundary_step(s.len() as int, w, k);
    }
}

/// The digit sum of a concatenation is the sum of the two digit sums.
pub proof fn lemma_digit_sum_concat(a: Seq<char>, b: Seq<char>)
    ensures
        digit_sum(a + b) == digit_sum(a) + digit_sum(b),
    decreases b.len(),
{
    if b.len() == 0 {
        assert(a + b =~= a);
    } else {
        lemma_digit_sum_concat(a, b.drop_last());
        assert((a + b).drop_last() =~= a + b.drop_last());
    }
}

/// A sequence of digits sums to at most nine per element.
proof fn lemma_digit_sum_bounds(s: Seq<char>)
    requires
        all_digits(s),
    ensures
        0 <= digit_sum(s) <= 9 * s.len(),
    decreases s.len(),
{
    if s.len() > 0 {
        lemma_digit_sum_bounds(s.drop_last());
        assert(is_digit(s[s.len() - 1]));
    }
}

/// The digit sum of `chunk`, or `InvalidDigitError` if an element of `chunk` is
/// not a digit.
pub fn reduce_chunk(chunk: &[char]) -> (r: Result<u64, ReduceError>)
    requires
        9 * chunk@.len() <= u64::MAX,
    ensures
        r == (if all_digits(chunk@) {
            Ok::<u64, ReduceError>(digit_sum(chunk@) as u64)
        } else {
            Err::<u64, ReduceError>(ReduceError::InvalidDigitError)
        }),
{
    let mut sum: u64 = 0;
    for i in 0..chunk.len()
        invariant
            9 * chunk@.len() <= u64::MAX,
            all_digits(chunk@.subrange(0, i as int)),
            sum == digit_sum(chunk@.subrange(0, i as int)),
    {
        let ghost pre = chunk@.subrange(0, i as int);
        let ghost next = chunk@.subrange(0, i + 1);
        assert(next.drop_last() =~= pre);
        match digit_of(chunk[i]) {
            None => {
                assert(!is_digit(chunk@[i as int]));
                return Err(ReduceError::InvalidDigitError);
            },
            Some(d) => {
                proof {
                    lemma_digit_sum_bounds(pre);
                }
                sum = sum + d;
                assert(all_digits(next)) by {
                    assert forall|j: int| 0 <= j < next.len() implies is_digit(#[trigger] next[j]) by {
                        if j < i {
                            assert(next[j] == pre[j]);
                        }
                    }
                }
            },
        }
    }
    assert(chunk@.subrange(0, chunk@.len() as int) =~= chunk@);
    Ok(sum)
}

/// The sum of the values in `p`, in order.
pub open spec fn total(p: Seq<u64>) -> int
    decreases p.len(),
{
    if p.len() == 0 {
        0
    } else {
        total(p.drop_last()) + p.last() as int
    }
}

/// A prefix never sums to more than the whole.
proof fn lemma_total_prefix(p: Seq<u64>, i: int)
    requires
        0 <= i <= p.len(),
    ensures
        total(p.subrange(0, i)) <= total(p),
    decreases p.len() - i,
{
    if i < p.len() {
        lemma_total_prefix(p, i + 1);
        assert(p.subrange(0, i + 1).drop_last() =~= p.subrange(0, i));
    } else {
        assert(p.subrange(0, i) =~= p);
    }
}

/// Sums the partial results in index order, or `None` where the sum does not
/// fit in a `u64`.
pub fn combine(partials: &[u64]) -> (r: Option<u64>)
    ensures
        r == (if total(partials@) <= u64::MAX {
            Some(total(partials@) as u64)
        } else {
            None::<u64>
        }),
{
    let mut sum: u64 = 0;
    for i in 0..partials.len()
        invariant
            sum == total(partials@.subrange(0, i as int)),
    {
        assert(partials@.subrange(0, i + 1).drop_last() =~= partials@.subrange(0, i as int));
        match sum.checked_add(partials[i]) {
            None => {
                proof {
                    lemma_total_prefix(partials@, i + 1);
                }
                return None;
            },
            Some(t) => {
                sum = t;
            },
        }
    }
    assert(partials@.subrange(0, partials@.len() as int) =~= partials@);
    Some(sum)
}

/// The digit sums of the first `j` chunks of `s`, added in chunk order.
pub open spec fn chunk_sums(s: Seq<char>, w: int, j: int) -> int
    decreases j,
{
    if j <= 0 {
        0
    } else {
        chunk_sums(s, w, j - 1) + digit_sum(chunk(s, w, j - 1))
    }
}

/// The first `j` chunks hold digits only exactly when the prefix of `s` they
/// cover does, and their digit sums add up to that prefix's digit sum.
proof fn lemma_chunk_sums_prefix(s: Seq<char>, w: int, j: int)
    requires
        1 <= w <= s.len(),
        0 <= j <= w,
    ensures
        chunk_sums(s, w, j) == digit_sum(s.subrange(0, boundary(s.len() as int, w, j))),
        all_digits(s.subrange(0, boundary(s.len() as int, w, j))) <==> (forall|k: int|
            0 <= k < j ==> all_digits(#[trigger] chunk(s, w, k))),
    decreases j,
{
    let n = s.len() as int;
    if j == 0 {
        assert(boundary(n, w, 0) == 0);
        assert(s.subrange(0, 0) =~= Seq::<char>::empty());
    } else {
        lemma_chunk_sums_prefix(s, w, j - 1);
        lemma_boundary_step(n, w, j - 1);
        let a = s.subrange(0, boundary(n, w, j - 1));
        let b = chunk(s, w, j - 1);
        assert(s.subrange(0, boundary(n, w, j)) =~= a + b);
        lemma_digit_sum_concat(a, b);
        lemma_all_digits_concat(a, b);
        if all_digits(a) && all_digits(b) {
            assert forall|k: int| 0 <= k < j implies all_digits(#[trigger] chunk(s, w, k)) by {
                if k < j - 1 {
                    assert(all_digits(chunk(s, w, k)));
                }
            }
        }
    }
}

/// A concatenation holds digits only exactly when both parts do.
proof fn lemma_all_digits_concat(a: Seq<char>, b: Seq<char>)
    ensures
        all_digits(a + b) <==> all_digits(a) && all_digits(b),
{
    if all_digits(a + b) {
        assert forall|i: int| 0 <= i < b.len() implies is_digit(#[trigger] b[i]) by {
            assert((a + b)[a.len() + i] == b[i]);
        }
        assert forall|i: int| 0 <= i < a.len() implies is_digit(#[trigger] a[i]) by {
            assert((a + b)[i] == a[i]);
        }
    }
    if all_digits(a) && all_digits(b) {
        assert forall|i: int| 0 <= i < (a + b).len() implies is_digit(#[trigger] (a + b)[i]) by {
            if i >= a.len() {
                assert((a + b)[i] == b[i - a.len()]);
            }
        }
    }
}

/// Splitting does not change the sum: the digit sums of all `w` chunks add
/// up to the digit sum of `s`, for every valid worker count `w`.
pub proof fn lemma_chunk_sums_total(s: Seq<char>, w: int)
    requires
        1 <= w <= s.len(),
    ensures
        chunk_sums(s, w, w) == digit_sum(s),
        all_digits(s) <==> (forall|k: int| 0 <= k < w ==> all_digits(#[trigger] chunk(s, w, k))),
{
    lemma_chunk_sums_prefix(s, w, w);
    assert(s.subrange(0, s.len() as int) =~= s);
}

/// What a reduction of `s` among `w` workers returns.
pub open spec fn reduction(s: Seq<char>, w: int) -> Result<u64, ReduceError> {
    if w < 1 || w > s.len() {
        Err(ReduceError::ConfigurationError)
    } else if !all_digits(s) {
        Err(ReduceError::InvalidDigitError)
    } else {
        Ok(digit_sum(s) as u64)
    }
}

/// Splits `s` into `w` chunks, sums the digits of each chunk and adds the
/// partial sums in chunk order. A worker count of zero or above `s.len()` is
/// refused before any work; a non-digit anywhere fails the whole reduction.
pub fn run(s: &[char], w: usize) -> (r: Result<u64, ReduceError>)
    requires
        9 * s@.len() <= u64::MAX,
    ensures
        r == reduction(s@, w as int),
        r is Ok ==> r->Ok_0 == digit_sum(s@),
{
    let n = s.len();
    if w == 0 || w > n {
        return Err(ReduceError::ConfigurationError);
    }
    let parts = partition(s, w);
    let mut partials: Vec<u64> = Vec::new();
    for k in 0..w
        invariant
            n == s@.len(),
            9 * n <= u64::MAX,
            1 <= w <= n,
            parts@.len() == w,
            views(parts@) == chunks(s@, w as int),
            partials@.len() == k,
            total(partials@) == chunk_sums(s@, w as int, k as int),
            forall|j: int| 0 <= j < k ==> all_digits(#[trigger] chunk(s@, w as int, j)),
    {
        assert(parts@[k as int]@ == views(parts@)[k as int]);
        proof {
            lemma_boundary_step(n as int, w as int, k as int);
        }
        match reduce_chunk(parts[k].as_slice()) {
            Err(e) => {
                proof {
                    lemma_chunk_sums_total(s@, w as int);
                }
                return Err(e);
            },
            Ok(v) => {
                proof {
                    lemma_digit_sum_bounds(chunk(s@, w as int, k as int));
                }
                assert(partials@.push(v).drop_last() =~= partials@);
                partials.push(v);
            },
        }
    }
    proof {
        lemma_chunk_sums_total(s@, w as int);
        lemma_digit_sum_bounds(s@);
    }
    Ok(combine(partials.as_slice()).unwrap())
}

/// Partial results as workers hand them back, each tagged with its chunk
/// index, cover every chunk below `w` exactly once.
pub open spec fn well_tagged(a: Seq<(usize, u64)>, w: int) -> bool {
    &&& forall|i: int| 0 <= i < a.len() ==> (#[trigger] a[i]).0 < w
    &&& forall|i: int, j: int|
        0 <= i < a.len() && 0 <= j < a.len() && i != j ==> (#[trigger] a[i]).0 != (#[trigger] a[j]).0
    &&& forall|k: int| 0 <= k < w ==> #[trigger] holds_chunk(a, k)
}

/// Some element of `a` is tagged with chunk index `k`.
pub open spec fn holds_chunk(a: Seq<(usize, u64)>, k: int) -> bool {
    exists|i: int| 0 <= i < a.len() && (#[trigger] a[i]).0 == k
}

/// The partial result that `a` holds for chunk `k`.
pub open spec fn result_for(a: Seq<(usize, u64)>, k: int) -> u64 {
    a[choose|i: int| 0 <= i < a.len() && (#[trigger] a[i]).0 == k].1
}

/// The partial results of `a` for chunks `0..w`, in chunk order.
pub open spec fn in_chunk_order(a: Seq<(usize, u64)>, w: int) -> Seq<u64> {
    Seq::new(w as nat, |k: int| result_for(a, k))
}

/// Puts partial results that arrived in any order back into chunk order.
/// Returns `None` unless every chunk index below `w` occurs exactly once.
pub fn order_partials(arrivals: &[(usize, u64)], w: usize) -> (r: Option<Vec<u64>>)
    ensures
        r is Some <==> well_tagged(arrivals@, w as int),
        r is Some ==> r->Some_0@ == in_chunk_order(arrivals@, w as int),
{
    let ghost a = arrivals@;
    let mut slots: Vec<u64> = Vec::new();
    let mut seen: Vec<bool> = Vec::new();
    for k in 0..w
        invariant
            slots@.len() == k,
            seen@.len() == k,
            forall|j: int| 0 <= j < k ==> !(#[trigger] seen@[j]),
    {
        slots.push(0);
        seen.push(false);
    }
    for i in 0..arrivals.len()
        invariant
            a == arrivals@,
            slots@.len() == w,
            seen@.len() == w,
            forall|j: int| 0 <= j < i ==> (#[trigger] a[j]).0 < w,
            forall|j: int| 0 <= j < i ==> seen@[(#[trigger] a[j]).0 as int],
            forall|j: int| 0 <= j < i ==> slots@[(#[trigger] a[j]).0 as int] == a[j].1,
            forall|j1: int, j2: int|
                0 <= j1 < i && 0 <= j2 < i && j1 != j2 ==> (#[trigger] a[j1]).0 != (#[trigger] a[j2]).0,
            forall|k: int| 0 <= k < w && #[trigger] seen@[k] ==> exists|j: int| 0 <= j < i && (#[trigger] a[j]).0 == k,
    {
        let (idx, v) = arrivals[i];
        if idx >= w {
            return None;
        }
        if seen[idx] {
            let ghost j = choose|j: int| 0 <= j < i && (#[trigger] a[j]).0 == idx;
            assert(a[j].0 == a[i as int].0);
            return None;
        }
        slots.set(idx, v);
        seen.set(idx, true);
        assert forall|k: int| 0 <= k < w && #[trigger] seen@[k] implies exists|j: int|
            0 <= j < i + 1 && (#[trigger] a[j]).0 == k by {
            if k == idx {
                assert(a[i as int].0 == k);
            } else {
                let j = choose|j: int| 0 <= j < i && (#[trigger] a[j]).0 == k;
                assert(a[j].0 == k);
            }
        }
    }
    for k in 0..w
        invariant
            a == arrivals@,
            seen@.len() == w,
            forall|j: int| 0 <= j < k ==> #[trigger] seen@[j],
            forall|k: int| 0 <= k < w && #[trigger] seen@[k] ==> exists|j: int|
                0 <= j < a.len() && (#[trigger] a[j]).0 == k,
            forall|j: int| 0 <= j < a.len() ==> seen@[(#[trigger] a[j]).0 as int],
    {
        if !seen[k] {
            assert(!well_tagged(a, w as int)) by {
                if well_tagged(a, w as int) {
                    assert(holds_chunk(a, k as int));
                    let j = choose|j: int| 0 <= j < a.len() && (#[trigger] a[j]).0 == k;
                    assert(seen@[a[j].0 as int]);
                }
            }
            return None;
        }
    }
    assert forall|k: int| 0 <= k < w implies #[trigger] holds_chunk(a, k) by {
        assert(seen@[k]);
    }
    assert(well_tagged(a, w as int));
    assert forall|k: int| 0 <= k < w implies slots@[k] == #[trigger] result_for(a, k) by {
        assert(holds_chunk(a, k));
        let j = choose|j: int| 0 <= j < a.len() && (#[trigger] a[j]).0 == k;
        assert(a[j].0 == k);
    }
    assert(slots@ =~= in_chunk_order(a, w as int));
    Some(slots)
}

/// The order in which workers finish does not matter: two arrival orders of
/// the same tagged partial results give the same partial results in chunk
/// order.
pub proof fn lemma_arrival_order_irrelevant(a: Seq<(usize, u64)>, b: Seq<(usize, u64)>, w: nat)
    requires
        well_tagged(a, w as int),
        well_tagged(b, w as int),
        a.to_set() == b.to_set(),
    ensures
        in_chunk_order(a, w as int) == in_chunk_order(b, w as int),
{
    assert forall|k: int| 0 <= k < w implies #[trigger] result_for(a, k) == result_for(b, k) by {
        assert(holds_chunk(a, k));
        assert(holds_chunk(b, k));
        let i = choose|i: int| 0 <= i < a.len() && (#[trigger] a[i]).0 == k;
        assert(a[i].0 == k);
        assert(a.to_set().contains(a[i]));
        assert(b.contains(a[i]));
        let j = choose|j: int| 0 <= j < b.len() && b[j] == a[i];
        let j2 = choose|j: int| 0 <= j < b.len() && (#[trigger] b[j]).0 == k;
        assert(b[j].0 == k);
        assert(b[j2].0 == k);
    }
    assert(in_chunk_order(a, w as int) =~= in_chunk_order(b, w as int));
}

/// Puts partial results that arrived in any order back into chunk order and
/// adds them. Returns `None` unless every chunk index below `w` occurs exactly
/// once and the sum fits in a `u64`.
pub fn aggregate(arrivals: &[(usize, u64)], w: usize) -> (r: Option<u64>)
    ensures
        r == (if well_tagged(arrivals@, w as int) && total(in_chunk_order(arrivals@, w as int))
            <= u64::MAX {
            Some(total(in_chunk_order(arrivals@, w as int)) as u64)
        } else {
            None::<u64>
        }),
{
    match order_partials(arrivals, w) {
        None => None,
        Some(ordered) => combine(ordered.as_slice()),
    }
}

/// The worker count does not change the result: any two valid worker counts
/// give the same reduction, the digit sum of `s` when it holds digits only.
pub proof fn lemma_worker_count_irrelevant(s: Seq<char>, w1: int, w2: int)
    requires
        1 <= w1 <= s.len(),
        1 <= w2 <= s.len(),
    ensures
        reduction(s, w1) == reduction(s, w2),
        all_digits(s) ==> reduction(s, w1) == Ok::<u64, ReduceError>(digit_sum(s) as u64),
        chunk_sums(s, w1, w1) == chunk_sums(s, w2, w2),
{
    lemma_chunk_sums_total(s, w1);
    lemma_chunk_sums_total(s, w2);
}

/// With one worker per element every chunk holds exactly one element; with a
/// single worker the one chunk is the whole sequence.
pub proof fn lemma_partition_extremes(s: Seq<char>)
    requires
        s.len() >= 1,
    ensures
        forall|k: int| 0 <= k < s.len() ==> #[trigger] chunks(s, s.len() as int)[k] == seq![s[k]],
        chunks(s, 1) == seq![s],
{
    let n = s.len() as int;
    assert(n / n == 1) by {
        vstd::arithmetic::div_mod::lemma_div_by_self(n);
    }
    assert forall|k: int| 0 <= k < n implies #[trigger] chunks(s, n)[k] == seq![s[k]] by {
        assert(k * 1 == k);
        assert((k + 1) * 1 == k + 1);
        assert(boundary(n, n, k) == k);
        assert(boundary(n, n, k + 1) == k + 1);
        assert(chunk(s, n, k) =~= seq![s[k]]);
    }
    assert(boundary(n, 1, 0) == 0);
    assert(chunk(s, 1, 0) =~= s);
    assert(chunks(s, 1) =~= seq![s]);
}

} // verus!
