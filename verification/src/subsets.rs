//! Enumeration of the letter subsets that are probed against the index.
//!
//! For a signature of `n` letters and a least length `l`, the subsets are all
//! selections of `k` of its letters, in the order the letters have in the
//! signature, for every `k` from `l` (at least 1) up to `n`.
//!
//! The selections of one length come from `permutator`; what is assumed of
//! that call is said above the one function that makes it.

use crate::signature::is_signature;
use permutator::copy::Combination;
use vstd::prelude::*;

verus! {

/// `n!`.
pub open spec fn factorial(n: nat) -> nat
    decreases n,
{
    if n == 0 {
        1
    } else {
        n * factorial((n - 1) as nat)
    }
}

/// The product of the `k` integers that end at `n`: `n * (n-1) * ... * (n-k+1)`.
pub open spec fn falling_factorial(n: nat, k: nat) -> nat
    decreases k,
{
    if k == 0 || n == 0 {
        1
    } else {
        n * falling_factorial((n - 1) as nat, (k - 1) as nat)
    }
}

/// The number of ways to choose `k` of `n` things.
pub open spec fn binomial(n: nat, k: nat) -> nat
    decreases n,
{
    if k == 0 {
        1
    } else if n == 0 {
        0
    } else {
        binomial((n - 1) as nat, (k - 1) as nat) + binomial((n - 1) as nat, k)
    }
}

/// `binomial(n, from) + binomial(n, from + 1) + ... + binomial(n, n)`.
pub open spec fn binomial_sum(n: nat, from: nat) -> nat
    decreases n + 1 - from,
{
    if from > n {
        0
    } else {
        binomial(n, from) + binomial_sum(n, from + 1)
    }
}

/// Every sequence of `rest` with `first` put in front.
pub open spec fn prefixed(first: u8, rest: Seq<Seq<u8>>) -> Seq<Seq<u8>> {
    Seq::new(rest.len(), |i: int| seq![first] + rest[i])
}

/// All selections of `k` of `items`, each in the order of `items`, listed in
/// lexicographic order of the positions selected: first those that hold the
/// first item, then those that do not.
pub open spec fn combinations(items: Seq<u8>, k: nat) -> Seq<Seq<u8>>
    decreases items.len(),
{
    if k == 0 {
        seq![Seq::<u8>::empty()]
    } else if items.len() == 0 {
        Seq::empty()
    } else {
        prefixed(items[0], combinations(items.drop_first(), (k - 1) as nat)) + combinations(
            items.drop_first(),
            k,
        )
    }
}

/// The selections of `from` items, then of `from + 1`, and so on up to all
/// of `items`.
pub open spec fn subsets_from(items: Seq<u8>, from: nat) -> Seq<Seq<u8>>
    decreases items.len() + 1 - from,
{
    if from > items.len() {
        Seq::empty()
    } else {
        combinations(items, from) + subsets_from(items, from + 1)
    }
}

/// The least subset length that is enumerated for a requested `min_len`: the
/// empty subset is never enumerated.
pub open spec fn least_len(min_len: nat) -> nat {
    if min_len == 0 {
        1
    } else {
        min_len
    }
}

/// Every non-empty subset of `items` with at least `min_len` members.
pub open spec fn all_subsets(items: Seq<u8>, min_len: nat) -> Seq<Seq<u8>> {
    subsets_from(items, least_len(min_len))
}

/// Whether the subsets of `n` items with at least `min_len` members can be
/// enumerated on this machine: either there are none, or `n!` fits a `usize`.
pub open spec fn can_enumerate(n: nat, min_len: nat) -> bool {
    min_len > n || factorial(n) <= usize::MAX
}

/// `factorial` never decreases.
pub proof fn lemma_factorial_grows(a: nat, b: nat)
    requires
        a <= b,
    ensures
        1 <= factorial(a) <= factorial(b),
    decreases b,
{
    if b == 0 {
    } else if a == b {
        lemma_factorial_grows((a - 1) as nat, (b - 1) as nat);
        assert(factorial((a - 1) as nat) <= a * factorial((a - 1) as nat)) by (nonlinear_arith)
            requires
                a >= 1,
        ;
    } else {
        lemma_factorial_grows(a, (b - 1) as nat);
        assert(factorial((b - 1) as nat) <= b * factorial((b - 1) as nat)) by (nonlinear_arith)
            requires
                b >= 1,
        ;
    }
}

/// From three on, `n!` is at least twice `n`: a length whose factorial fits
/// a `usize` is itself well below `usize::MAX`.
pub proof fn lemma_factorial_bounds_length(n: nat)
    requires
        n >= 3,
    ensures
        2 * n <= factorial(n),
    decreases n,
{
    if n == 3 {
        reveal_with_fuel(factorial, 4);
    } else {
        lemma_factorial_bounds_length((n - 1) as nat);
        let below = factorial((n - 1) as nat);
        assert(2 * n <= n * below) by (nonlinear_arith)
            requires
                n >= 4,
                2 * (n - 1) <= below,
        ;
    }
}

/// A falling factorial of `n` is at most `n!`.
pub proof fn lemma_falling_factorial_bound(n: nat, k: nat)
    ensures
        falling_factorial(n, k) <= factorial(n),
    decreases k,
{
    lemma_factorial_grows(0, n);
    if k == 0 || n == 0 {
    } else {
        lemma_falling_factorial_bound((n - 1) as nat, (k - 1) as nat);
        let a = falling_factorial((n - 1) as nat, (k - 1) as nat);
        let b = factorial((n - 1) as nat);
        assert(n * a <= n * b) by (nonlinear_arith)
            requires
                a <= b,
        ;
    }
}

/// Whether every member of `part` is a member of `whole`.
pub open spec fn within(part: Seq<u8>, whole: Seq<u8>) -> bool {
    forall|x: u8| part.contains(x) ==> whole.contains(x)
}

/// There are `binomial(n, k)` selections of `k` of `n` items.
pub proof fn lemma_combinations_count(items: Seq<u8>, k: nat)
    ensures
        combinations(items, k).len() == binomial(items.len(), k),
    decreases items.len(),
{
    if k != 0 && items.len() != 0 {
        lemma_combinations_count(items.drop_first(), (k - 1) as nat);
        lemma_combinations_count(items.drop_first(), k);
    }
}

/// Each selection of `k` items has `k` members, all of them from `items`;
/// taken from a signature, it is a signature that starts no lower.
pub proof fn lemma_combination_shape(items: Seq<u8>, k: nat, i: int)
    requires
        0 <= i < combinations(items, k).len(),
    ensures
        combinations(items, k)[i].len() == k,
        within(combinations(items, k)[i], items),
        is_signature(items) ==> is_signature(combinations(items, k)[i]),
        is_signature(items) && k > 0 ==> items.len() > 0 && items[0] <= combinations(items, k)[i][0],
    decreases items.len(),
{
    let c = combinations(items, k)[i];
    if k == 0 {
        assert(c =~= Seq::<u8>::empty());
    } else if items.len() != 0 {
        let tail = items.drop_first();
        let with = prefixed(items[0], combinations(tail, (k - 1) as nat));
        let without = combinations(tail, k);
        if is_signature(items) {
            assert forall|a: int, b: int| 0 <= a < b < tail.len() implies tail[a] < tail[b] by {
                assert(items[a + 1] < items[b + 1]);
            }
        }
        if i < with.len() {
            let rest = combinations(tail, (k - 1) as nat)[i];
            lemma_combination_shape(tail, (k - 1) as nat, i);
            assert(c == seq![items[0]] + rest);
            assert forall|x: u8| c.contains(x) implies items.contains(x) by {
                let p = choose|p: int| 0 <= p < c.len() && c[p] == x;
                if p == 0 {
                    assert(items[0] == x);
                } else {
                    assert(rest[p - 1] == x);
                    assert(rest.contains(x));
                    assert(tail.contains(x));
                    let q = choose|q: int| 0 <= q < tail.len() && tail[q] == x;
                    assert(items[q + 1] == x);
                }
            }
            if is_signature(items) {
                assert forall|a: int, b: int| 0 <= a < b < c.len() implies c[a] < c[b] by {
                    if a == 0 {
                        assert(rest[b - 1] == c[b]);
                        assert(rest.contains(c[b]));
                        assert(tail.contains(c[b]));
                        let q = choose|q: int| 0 <= q < tail.len() && tail[q] == c[b];
                        assert(items[0] < items[q + 1]);
                    } else {
                        assert(rest[a - 1] < rest[b - 1]);
                    }
                }
            }
        } else {
            let j = i - with.len();
            lemma_combination_shape(tail, k, j);
            assert(c == without[j]);
            assert forall|x: u8| c.contains(x) implies items.contains(x) by {
                assert(tail.contains(x));
                let q = choose|q: int| 0 <= q < tail.len() && tail[q] == x;
                assert(items[q + 1] == x);
            }
            if is_signature(items) {
                assert(tail[0] == items[1]);
                assert(items[0] < items[1]);
            }
        }
    }
}

/// No selection of `k` letters of a signature is listed twice.
pub proof fn lemma_combinations_distinct(items: Seq<u8>, k: nat, i: int, j: int)
    requires
        is_signature(items),
        0 <= i < j < combinations(items, k).len(),
    ensures
        combinations(items, k)[i] != combinations(items, k)[j],
    decreases items.len(),
{
    if k != 0 && items.len() != 0 {
        let tail = items.drop_first();
        let with = prefixed(items[0], combinations(tail, (k - 1) as nat));
        let without = combinations(tail, k);
        assert forall|a: int, b: int| 0 <= a < b < tail.len() implies tail[a] < tail[b] by {
            assert(items[a + 1] < items[b + 1]);
        }
        let ci = combinations(items, k)[i];
        let cj = combinations(items, k)[j];
        if j < with.len() {
            lemma_combinations_distinct(tail, (k - 1) as nat, i, j);
            let ri = combinations(tail, (k - 1) as nat)[i];
            let rj = combinations(tail, (k - 1) as nat)[j];
            assert(ci.drop_first() =~= ri);
            assert(cj.drop_first() =~= rj);
        } else if i < with.len() {
            lemma_combination_shape(tail, k, j - with.len());
            assert(ci[0] == items[0]);
            assert(cj == without[j - with.len()]);
            assert(tail[0] == items[1]);
            assert(items[0] < items[1]);
        } else {
            lemma_combinations_distinct(tail, k, i - with.len(), j - with.len());
        }
    }
}

/// Every signature of `k` letters, all of them from the signature `items`,
/// is among the selections of `k` of `items`.
pub proof fn lemma_combinations_complete(items: Seq<u8>, part: Seq<u8>) -> (at: int)
    requires
        is_signature(items),
        is_signature(part),
        within(part, items),
    ensures
        0 <= at < combinations(items, part.len()).len(),
        combinations(items, part.len())[at] == part,
    decreases items.len(),
{
    let k = part.len();
    if k == 0 {
        assert(part =~= Seq::<u8>::empty());
        0
    } else {
        assert(part.contains(part[0]));
        let q0 = choose|q: int| 0 <= q < items.len() && items[q] == part[0];
        let tail = items.drop_first();
        let with = prefixed(items[0], combinations(tail, (k - 1) as nat));
        assert forall|a: int, b: int| 0 <= a < b < tail.len() implies tail[a] < tail[b] by {
            assert(items[a + 1] < items[b + 1]);
        }
        if part[0] == items[0] {
            let rest = part.drop_first();
            assert forall|x: u8| rest.contains(x) implies tail.contains(x) by {
                let p = choose|p: int| 0 <= p < rest.len() && rest[p] == x;
                assert(part[p + 1] == x);
                assert(part[0] < part[p + 1]);
                assert(part.contains(x));
                let q = choose|q: int| 0 <= q < items.len() && items[q] == x;
                assert(tail[q - 1] == x);
            }
            assert forall|a: int, b: int| 0 <= a < b < rest.len() implies rest[a] < rest[b] by {
                assert(part[a + 1] < part[b + 1]);
            }
            let at = lemma_combinations_complete(tail, rest);
            assert(with[at] =~= part);
            at
        } else {
            assert forall|x: u8| part.contains(x) implies tail.contains(x) by {
                let p = choose|p: int| 0 <= p < part.len() && part[p] == x;
                let q = choose|q: int| 0 <= q < items.len() && items[q] == x;
                if q == 0 {
                    if p > 0 {
                        assert(part[0] < part[p]);
                    }
                    assert(items[0] < items[q0]);
                }
                assert(tail[q - 1] == x);
            }
            let at = lemma_combinations_complete(tail, part);
            with.len() + at
        }
    }
}

/// More cannot be selected than there is.
pub proof fn lemma_combinations_none_beyond(items: Seq<u8>, k: nat)
    requires
        k > items.len(),
    ensures
        combinations(items, k).len() == 0,
    decreases items.len(),
{
    if items.len() != 0 {
        lemma_combinations_none_beyond(items.drop_first(), (k - 1) as nat);
        lemma_combinations_none_beyond(items.drop_first(), k);
    }
}

/// `subsets_from` lists `binomial_sum` subsets.
pub proof fn lemma_subsets_from_count(items: Seq<u8>, from: nat)
    ensures
        subsets_from(items, from).len() == binomial_sum(items.len(), from),
    decreases items.len() + 1 - from,
{
    if from <= items.len() {
        lemma_combinations_count(items, from);
        lemma_subsets_from_count(items, from + 1);
    }
}

/// Each subset that `subsets_from` lists has between `from` and all of the
/// items, all of them from `items`; taken from a signature it is a signature.
pub proof fn lemma_subsets_from_shape(items: Seq<u8>, from: nat, i: int)
    requires
        0 <= i < subsets_from(items, from).len(),
    ensures
        from <= subsets_from(items, from)[i].len() <= items.len(),
        within(subsets_from(items, from)[i], items),
        is_signature(items) ==> is_signature(subsets_from(items, from)[i]),
    decreases items.len() + 1 - from,
{
    let first = combinations(items, from);
    if i < first.len() {
        lemma_combination_shape(items, from, i);
    } else {
        lemma_subsets_from_shape(items, from + 1, i - first.len());
    }
}

/// `subsets_from` lists no subset of a signature twice.
pub proof fn lemma_subsets_from_distinct(items: Seq<u8>, from: nat, i: int, j: int)
    requires
        is_signature(items),
        0 <= i < j < subsets_from(items, from).len(),
    ensures
        subsets_from(items, from)[i] != subsets_from(items, from)[j],
    decreases items.len() + 1 - from,
{
    let first = combinations(items, from);
    if j < first.len() {
        lemma_combinations_distinct(items, from, i, j);
    } else if i < first.len() {
        lemma_combination_shape(items, from, i);
        lemma_subsets_from_shape(items, from + 1, j - first.len());
    } else {
        lemma_subsets_from_distinct(items, from + 1, i - first.len(), j - first.len());
    }
}

/// `subsets_from` lists every signature of at least `from` letters that are
/// all letters of the signature `items`.
pub proof fn lemma_subsets_from_complete(items: Seq<u8>, from: nat, part: Seq<u8>) -> (at: int)
    requires
        is_signature(items),
        is_signature(part),
        within(part, items),
        from <= part.len(),
    ensures
        0 <= at < subsets_from(items, from).len(),
        subsets_from(items, from)[at] == part,
    decreases items.len() + 1 - from,
{
    let found = lemma_combinations_complete(items, part);
    if part.len() > items.len() {
        lemma_combinations_none_beyond(items, part.len());
    }
    if part.len() == from {
        found
    } else {
        combinations(items, from).len() + lemma_subsets_from_complete(items, from + 1, part)
    }
}

/// No enumerated subset is shorter than `min_len`, empty, or longer than
/// `items`; each holds only members of `items`, and is a signature when
/// `items` is one.
pub proof fn lemma_subset_bounds(items: Seq<u8>, min_len: nat, i: int)
    requires
        0 <= i < all_subsets(items, min_len).len(),
    ensures
        min_len <= all_subsets(items, min_len)[i].len(),
        1 <= all_subsets(items, min_len)[i].len() <= items.len(),
        within(all_subsets(items, min_len)[i], items),
        is_signature(items) ==> is_signature(all_subsets(items, min_len)[i]),
{
    lemma_subsets_from_shape(items, least_len(min_len), i);
}

/// The number of enumerated subsets of `n` items is the sum of
/// `binomial(n, k)` over every `k` from the least length to `n`.
pub proof fn lemma_subset_count(items: Seq<u8>, min_len: nat)
    ensures
        all_subsets(items, min_len).len() == binomial_sum(items.len(), least_len(min_len)),
{
    lemma_subsets_from_count(items, least_len(min_len));
}

/// No subset of a signature is enumerated twice.
pub proof fn lemma_subsets_distinct(items: Seq<u8>, min_len: nat, i: int, j: int)
    requires
        is_signature(items),
        0 <= i < all_subsets(items, min_len).len(),
        0 <= j < all_subsets(items, min_len).len(),
        i != j,
    ensures
        all_subsets(items, min_len)[i] != all_subsets(items, min_len)[j],
{
    if i < j {
        lemma_subsets_from_distinct(items, least_len(min_len), i, j);
    } else {
        lemma_subsets_from_distinct(items, least_len(min_len), j, i);
    }
}

/// Every non-empty signature of at least `min_len` letters, all of them
/// letters of the signature `items`, is enumerated.
pub proof fn lemma_subsets_complete(items: Seq<u8>, min_len: nat, part: Seq<u8>)
    requires
        is_signature(items),
        is_signature(part),
        within(part, items),
        min_len <= part.len(),
        1 <= part.len(),
    ensures
        all_subsets(items, min_len).contains(part),
{
    let at = lemma_subsets_from_complete(items, least_len(min_len), part);
    assert(all_subsets(items, min_len)[at] == part);
}

/// All `k`-element selections of `items`, as `permutator`'s
/// `Combination::combination` for copied items yields them, collected.
///
/// The iterator walks a cursor of `k` ascending positions through the slice,
/// advancing the last position first, so the selections come in lexicographic
/// order of their positions; the contract states that order through
/// `combinations`. (The list in the iterator's own documentation is in
/// another order; the code gives this one.) Building the iterator fails on
/// `k == 0` and on `k > items.len()`, and it computes
/// `n * (n-1) * ... * (n-k+1)` in `usize`, so those inputs are left out.
#[verifier::external_body]
fn combinations_of(items: &[u8], k: usize) -> (found: Vec<Vec<u8>>)
    requires
        1 <= k <= items@.len(),
        falling_factorial(items@.len(), k as nat) <= usize::MAX,
    ensures
        found.deep_view() == combinations(items@, k as nat),
{
    items.combination(k).collect()
}

/// Tells whether `subsets` can enumerate for `n` letters and `min_len`.
pub fn fits_enumeration(n: usize, min_len: usize) -> (ok: bool)
    ensures
        ok == can_enumerate(n as nat, min_len as nat),
{
    if min_len > n {
        return true;
    }
    let mut product: usize = 1;
    let mut i: usize = 0;
    while i < n
        invariant
            min_len <= n,
            i <= n,
            product == factorial(i as nat),
        decreases n - i,
    {
        i = i + 1;
        assert(factorial(i as nat) == product * i) by (nonlinear_arith)
            requires
                factorial(i as nat) == i * factorial((i - 1) as nat),
                product == factorial((i - 1) as nat),
        ;
        match product.checked_mul(i) {
            Some(next) => {
                product = next;
            },
            None => {
                proof {
                    lemma_factorial_grows(i as nat, n as nat);
                }
                return false;
            },
        }
    }
    true
}

/// Lists every non-empty subset of `factors` that has at least `min_len`
/// members: first all of the least length, then all that are one longer, up
/// to `factors` itself; within one length in lexicographic order of position.
pub fn subsets(factors: &[u8], min_len: usize) -> (found: Vec<Vec<u8>>)
    requires
        can_enumerate(factors@.len(), min_len as nat),
    ensures
        found.deep_view() == all_subsets(factors@, min_len as nat),
{
    let n = factors.len();
    let mut found: Vec<Vec<u8>> = Vec::new();
    if min_len > n {
        assert(found.deep_view() =~= all_subsets(factors@, min_len as nat));
        return found;
    }
    let start: usize = if min_len == 0 {
        1
    } else {
        min_len
    };
    let mut k: usize = start;
    assert(found.deep_view() =~= Seq::<Seq<u8>>::empty());
    while k <= n
        invariant
            n == factors@.len(),
            1 <= start <= k <= n + 1,
            factorial(n as nat) <= usize::MAX,
            found.deep_view() + subsets_from(factors@, k as nat) == subsets_from(
                factors@,
                start as nat,
            ),
        decreases n + 1 - k,
    {
        proof {
            lemma_falling_factorial_bound(n as nat, k as nat);
        }
        let mut batch = combinations_of(factors, k);
        let ghost before = found.deep_view();
        let ghost added = batch.deep_view();
        found.append(&mut batch);
        proof {
            assert(found.deep_view() =~= before + added);
            assert((before + added) + subsets_from(factors@, (k + 1) as nat) =~= before + (added
                + subsets_from(factors@, (k + 1) as nat)));
            if n >= 3 {
                lemma_factorial_bounds_length(n as nat);
            }
        }
        k = k + 1;
    }
    assert(subsets_from(factors@, k as nat) =~= Seq::<Seq<u8>>::empty());
    assert(found.deep_view() + Seq::<Seq<u8>>::empty() =~= found.deep_view());
    found
}

/// As `subsets`, for any input: `None` when the enumeration does not fit
/// this machine.
pub fn try_subsets(factors: &[u8], min_len: usize) -> (found: Option<Vec<Vec<u8>>>)
    ensures
        found is Some <==> can_enumerate(factors@.len(), min_len as nat),
        found matches Some(list) ==> list.deep_view() == all_subsets(factors@, min_len as nat),
{
    if fits_enumeration(factors.len(), min_len) {
        Some(subsets(factors, min_len))
    } else {
        None
    }
}

} // verus!
