//! What the rounds of the protocol ask of the transcript.
use crate::domain::{lemma_pow2_monotone, two_to_the, Domain};
use crate::fiat_shamir::{stopped, Entry, ProofResult, Request, Transcript};
use crate::field::Ext;
use crate::poly::coeffs::{evaluate, law_expand_is_univariate, univariate, CoefficientList};
use crate::poly::multilinear::{expand, lemma_expand_len, MultilinearPoint};
use crate::poly::vector::{all_canonical, zeros};
use crate::whir::parameters::bytes_per_query;
use vstd::arithmetic::div_mod::{lemma_div_basics, lemma_div_denominator};
use vstd::arithmetic::power::{lemma_pow0, lemma_pow_positive, pow};
use vstd::arithmetic::power2::{lemma2_to64, lemma_pow2_adds, lemma_pow2_pos, pow2};
use vstd::prelude::*;

verus! {

// Samples out of the domain.

/// The values at the points of the polynomial with coefficients `c` in `n` variables, read as a
/// polynomial in one variable.
pub open spec fn ood_answers(c: Seq<Ext>, points: Seq<Ext>, n: nat) -> Seq<Ext> {
    Seq::new(points.len(), |i: int| evaluate(c, expand(points[i], n)))
}

/// The steps of sampling at the points; there are none without points.
pub open spec fn ood_trace(c: Seq<Ext>, points: Seq<Ext>, n: nat) -> Seq<Entry> {
    if points.len() == 0 {
        Seq::empty()
    } else {
        seq![Entry::Challenge(points), Entry::Scalars(ood_answers(c, points, n))]
    }
}

/// Receives points out of the domain and answers with the values of the polynomial there.
pub fn sample_ood_points<T: Transcript>(
    prover_state: &mut T,
    num_samples: usize,
    polynomial: &CoefficientList<Ext>,
) -> (r: ProofResult<(Vec<Ext>, Vec<Ext>)>)
    requires
        polynomial.wf(),
    ensures
        match r {
            Ok((points, answers)) => {
                &&& points@.len() == num_samples
                &&& all_canonical(points@)
                &&& answers@ == ood_answers(polynomial@, points@, polynomial.num_variables as nat)
                &&& final(prover_state).log() == old(prover_state).log() + ood_trace(
                    polynomial@,
                    points@,
                    polynomial.num_variables as nat,
                )
            },
            Err(e) => exists|points: Seq<Ext>|
                {
                    &&& points.len() == num_samples
                    &&& all_canonical(points)
                    &&& stopped(
                        final(prover_state).log(),
                        old(prover_state).log(),
                        #[trigger] ood_trace(polynomial@, points, polynomial.num_variables as nat),
                        e,
                    )
                },
        },
{
    let n: usize = polynomial.num_variables();
    let mut answers: Vec<Ext> = Vec::new();
    if num_samples == 0 {
        let points: Vec<Ext> = Vec::new();
        assert(prover_state.log() =~= old(prover_state).log() + ood_trace(
            polynomial@,
            points@,
            n as nat,
        ));
        assert(answers@ =~= ood_answers(polynomial@, points@, n as nat));
        return Ok((points, answers));
    }
    let ghost log = prover_state.log();
    let points: Vec<Ext> = match prover_state.challenge_scalars(num_samples) {
        Ok(points) => points,
        Err(e) => {
            proof {
                let any = zeros(num_samples as nat);
                let whole = ood_trace(polynomial@, any, n as nat);
                assert(log + whole.take(0) =~= log);
                assert(stopped(prover_state.log(), log, whole, e));
            }
            return Err(e);
        },
    };
    for i in 0..num_samples
        invariant
            polynomial.wf(),
            n == polynomial.num_variables,
            num_samples == points@.len(),
            answers@ == ood_answers(polynomial@, points@, n as nat).take(i as int),
    {
        let point: MultilinearPoint = MultilinearPoint::expand_from_univariate(points[i], n);
        proof {
            lemma_expand_len(points@[i as int], n as nat);
        }
        answers.push(polynomial.evaluate(&point));
        assert(answers@ =~= ood_answers(polynomial@, points@, n as nat).take(i + 1));
    }
    assert(answers@ =~= ood_answers(polynomial@, points@, n as nat));
    let ghost whole = ood_trace(polynomial@, points@, n as nat);
    assert(log + whole.take(1) =~= log.push(whole[0]));
    prover_state.add_scalars(&answers)?;
    assert(prover_state.log() =~= log + whole);
    Ok((points, answers))
}

// Queries.

/// The number that the bytes write, the highest byte first.
pub open spec fn big_endian(bytes: Seq<u8>) -> nat
    decreases bytes.len(),
{
    if bytes.len() == 0 {
        0
    } else {
        big_endian(bytes.drop_last()) * 256 + bytes.last() as nat
    }
}

/// The indices that are drawn: each group of bytes, reduced below `2^bits`.
pub open spec fn drawn(bytes: Seq<u8>, num_queries: nat, bits: nat) -> Seq<usize> {
    let k = bytes_per_query(bits);
    Seq::new(
        num_queries,
        |i: int| (big_endian(bytes.subrange(i * k, i * k + k)) % pow2(bits)) as usize,
    )
}

/// `x` put into the strictly increasing sequence `s`, unless it is there.
pub open spec fn sorted_insert(s: Seq<usize>, x: usize) -> Seq<usize>
    decreases s.len(),
{
    if s.len() == 0 || s.last() < x {
        s.push(x)
    } else if s.last() == x {
        s
    } else {
        sorted_insert(s.drop_last(), x).push(s.last())
    }
}

/// The numbers that occur in `s`, each once, in increasing order.
pub open spec fn sorted_set(s: Seq<usize>) -> Seq<usize>
    decreases s.len(),
{
    if s.len() == 0 {
        Seq::empty()
    } else {
        sorted_insert(sorted_set(s.drop_last()), s.last())
    }
}

/// Each entry is greater than those before it.
pub open spec fn increasing(s: Seq<usize>) -> bool {
    forall|i: int, j: int| 0 <= i < j < s.len() ==> s[i] < s[j]
}

proof fn lemma_sorted_insert(s: Seq<usize>, x: usize)
    requires
        increasing(s),
    ensures
        increasing(sorted_insert(s, x)),
        forall|y: usize| #[trigger] sorted_insert(s, x).contains(y) <==> s.contains(y) || y == x,
        sorted_insert(s, x).len() <= s.len() + 1,
    decreases s.len(),
{
    let t = sorted_insert(s, x);
    if s.len() == 0 || s.last() < x {
        assert forall|y: usize| #[trigger] t.contains(y) <==> s.contains(y) || y == x by {
            if s.contains(y) {
                let i = choose|i: int| 0 <= i < s.len() && s[i] == y;
                assert(t[i] == y);
            }
            if y == x {
                assert(t[s.len() as int] == y);
            }
        }
    } else if s.last() == x {
        assert(s[s.len() - 1] == x);
    } else {
        let (rest, last) = (s.drop_last(), s.last());
        lemma_sorted_insert(rest, x);
        let u = sorted_insert(rest, x);
        assert forall|i: int| 0 <= i < u.len() implies u[i] < last by {
            assert(u.contains(u[i]));
            if rest.contains(u[i]) {
                let k = choose|k: int| 0 <= k < rest.len() && rest[k] == u[i];
                assert(s[k] < s[s.len() - 1]);
            }
        }
        assert forall|y: usize| #[trigger] t.contains(y) <==> s.contains(y) || y == x by {
            if t.contains(y) {
                let i = choose|i: int| 0 <= i < t.len() && t[i] == y;
                if i < u.len() {
                    assert(u.contains(u[i]));
                    if rest.contains(y) {
                        let k = choose|k: int| 0 <= k < rest.len() && rest[k] == y;
                        assert(s[k] == y);
                    }
                } else {
                    assert(s[s.len() - 1] == y);
                }
            }
            if s.contains(y) || y == x {
                if s.contains(y) {
                    let i = choose|i: int| 0 <= i < s.len() && s[i] == y;
                    if i < rest.len() {
                        assert(rest[i] == y);
                    }
                }
                if y == last {
                    assert(t[u.len() as int] == y);
                } else {
                    assert(u.contains(y));
                    let i = choose|i: int| 0 <= i < u.len() && u[i] == y;
                    assert(t[i] == y);
                }
            }
        }
    }
}

/// The sequence is strictly increasing and has exactly the numbers of the given one.
pub proof fn law_sorted_set(s: Seq<usize>)
    ensures
        increasing(sorted_set(s)),
        forall|y: usize| #[trigger] sorted_set(s).contains(y) <==> s.contains(y),
        sorted_set(s).len() <= s.len(),
    decreases s.len(),
{
    if s.len() > 0 {
        let (rest, last) = (s.drop_last(), s.last());
        law_sorted_set(rest);
        lemma_sorted_insert(sorted_set(rest), last);
        assert forall|y: usize| #[trigger] sorted_set(s).contains(y) <==> s.contains(y) by {
            if s.contains(y) {
                let i = choose|i: int| 0 <= i < s.len() && s[i] == y;
                if i < rest.len() {
                    assert(rest[i] == y);
                }
            }
            if rest.contains(y) {
                let i = choose|i: int| 0 <= i < rest.len() && rest[i] == y;
                assert(s[i] == y);
            }
            assert(s[s.len() - 1] == last);
        }
    }
}

/// The queries that the bytes give: the drawn indices, each once, in increasing order.
pub open spec fn query_indices(bytes: Seq<u8>, num_queries: nat, bits: nat) -> Seq<usize> {
    sorted_set(drawn(bytes, num_queries, bits))
}

/// The queries are strictly increasing, below `2^bits`, and no more than were drawn.
pub proof fn law_query_indices(bytes: Seq<u8>, num_queries: nat, bits: nat)
    requires
        pow2(bits) <= usize::MAX,
    ensures
        increasing(query_indices(bytes, num_queries, bits)),
        query_indices(bytes, num_queries, bits).len() <= num_queries,
        forall|i: int|
            0 <= i < query_indices(bytes, num_queries, bits).len() ==> (#[trigger] query_indices(
                bytes,
                num_queries,
                bits,
            )[i]) < pow2(bits),
{
    let all = drawn(bytes, num_queries, bits);
    let q = query_indices(bytes, num_queries, bits);
    law_sorted_set(all);
    lemma_pow2_pos(bits);
    assert forall|i: int| 0 <= i < q.len() implies (#[trigger] q[i]) < pow2(bits) by {
        assert(q.contains(q[i]));
        let k = choose|k: int| 0 <= k < all.len() && all[k] == q[i];
        let b = bytes_per_query(bits);
        let x = big_endian(bytes.subrange(k * b, k * b + b));
        assert(x % pow2(bits) < pow2(bits)) by {
            vstd::arithmetic::div_mod::lemma_mod_bound(x as int, pow2(bits) as int);
        }
    }
}

/// Puts `x` into a strictly increasing vector, unless it is there.
fn insert_sorted(v: &mut Vec<usize>, x: usize)
    ensures
        final(v)@ == sorted_insert(old(v)@, x),
{
    let ghost s = v@;
    let mut i: usize = v.len();
    assert(s.take(i as int) =~= s);
    assert(s.skip(i as int) =~= Seq::<usize>::empty());
    assert(sorted_insert(s, x) =~= sorted_insert(s.take(i as int), x) + s.skip(i as int));
    while i > 0 && v[i - 1] > x
        invariant
            v@ == s,
            i <= s.len(),
            sorted_insert(s, x) == sorted_insert(s.take(i as int), x) + s.skip(i as int),
        decreases i,
    {
        proof {
            let t = s.take(i as int);
            assert(t.drop_last() =~= s.take(i - 1));
            assert(sorted_insert(t.drop_last(), x).push(t.last()) + s.skip(i as int)
                =~= sorted_insert(t.drop_last(), x) + s.skip(i - 1));
        }
        i = i - 1;
    }
    if i > 0 && v[i - 1] == x {
        assert(s.take(i as int) + s.skip(i as int) =~= s);
    } else {
        v.insert(i, x);
        assert(v@ =~= s.take(i as int).push(x) + s.skip(i as int));
    }
}

/// The number that a group of bytes writes, reduced below `size`.
fn reduce_chunk(bytes: &Vec<u8>, start: usize, len: usize, size: usize) -> (r: usize)
    requires
        start + len <= bytes@.len(),
        len <= 7,
        size > 0,
    ensures
        r == big_endian(bytes@.subrange(start as int, start + len)) % (size as nat),
        r < size,
{
    let mut acc: u64 = 0;
    let total: usize = bytes.len();
    proof {
        lemma2_to64();
        assert(bytes@.subrange(start as int, start as int) =~= Seq::<u8>::empty());
    }
    for i in 0..len
        invariant
            total == bytes@.len(),
            start + len <= total,
            len <= 7,
            acc == big_endian(bytes@.subrange(start as int, start + i)),
            acc < pow2((8 * i) as nat),
    {
        proof {
            let s = bytes@.subrange(start as int, start + i + 1);
            assert(s.drop_last() =~= bytes@.subrange(start as int, start + i));
            lemma_pow2_adds((8 * i) as nat, 8);
            lemma2_to64();
            lemma_pow2_monotone((8 * i + 8) as nat, 56);
            vstd::arithmetic::power2::lemma2_to64_rest();
        }
        acc = acc * 256 + bytes[start + i] as u64;
    }
    (acc % (size as u64)) as usize
}

/// Receives the indices of the leaves to open: of `num_queries` draws below the number of leaves,
/// those that differ, in increasing order.
pub fn get_challenge_stir_queries<T: Transcript>(
    domain: &Domain,
    folding_factor: usize,
    num_queries: usize,
    prover_state: &mut T,
) -> (r: ProofResult<Vec<usize>>)
    requires
        domain.wf(),
        folding_factor < domain.log_size,
        num_queries * bytes_per_query((domain.log_size - folding_factor) as nat) <= usize::MAX,
    ensures
        ({
            let bits = (domain.log_size - folding_factor) as nat;
            match r {
                Ok(indices) => exists|bytes: Seq<u8>|
                    {
                        &&& bytes.len() == num_queries * bytes_per_query(bits)
                        &&& indices@ == #[trigger] query_indices(bytes, num_queries as nat, bits)
                        &&& final(prover_state).log() == old(prover_state).log().push(
                            Entry::Bytes(bytes),
                        )
                    },
                Err(e) => final(prover_state).log() == old(prover_state).log().push(
                    Entry::Refused(Request::Bytes(num_queries as nat * bytes_per_query(bits)), e),
                ),
            }
        }),
{
    let bits: usize = domain.log_size - folding_factor;
    let len: usize = (bits + 7) / 8;
    proof {
        lemma_pow2_monotone(bits as nat, domain.log_size as nat);
        lemma_pow2_pos(bits as nat);
    }
    let size: usize = two_to_the(bits);
    let total: usize = num_queries * len;
    let bytes: Vec<u8> = prover_state.challenge_bytes(total)?;
    let mut indices: Vec<usize> = Vec::new();
    let ghost all = drawn(bytes@, num_queries as nat, bits as nat);
    assert(all.take(0) =~= Seq::<usize>::empty());
    for i in 0..num_queries
        invariant
            len == bytes_per_query(bits as nat),
            len <= 7,
            size == pow2(bits as nat),
            size > 0,
            bytes@.len() == total,
            total == num_queries * len,
            all == drawn(bytes@, num_queries as nat, bits as nat),
            indices@ == sorted_set(all.take(i as int)),
    {
        assert(i * len + len <= num_queries * len) by (nonlinear_arith)
            requires
                i + 1 <= num_queries,
        ;
        let x: usize = reduce_chunk(&bytes, i * len, len, size);
        insert_sorted(&mut indices, x);
        proof {
            assert(all.take(i + 1).drop_last() =~= all.take(i as int));
            assert(all.take(i + 1).last() == x);
        }
    }
    assert(all.take(num_queries as int) =~= all);
    assert(indices@ == query_indices(bytes@, num_queries as nat, bits as nat));
    Ok(indices)
}

// What the sampling and the queries are for.

/// The digits of the number that bytes write in base 256 are the bytes, the highest first.
pub proof fn law_big_endian(bytes: Seq<u8>, i: int)
    requires
        0 <= i < bytes.len(),
    ensures
        big_endian(bytes) < pow(256, bytes.len()),
        (big_endian(bytes) as int / pow(256, (bytes.len() - 1 - i) as nat)) % 256 == bytes[i],
    decreases bytes.len(),
{
    let high = big_endian(bytes.drop_last()) as int;
    let last = bytes.last() as int;
    let m = (bytes.len() - 1 - i) as nat;
    lemma_pow0(256);
    reveal_with_fuel(pow, 2);
    lemma_pow_positive(256, (bytes.len() - 1) as nat);
    if bytes.len() > 1 {
        law_big_endian(bytes.drop_last(), if i < bytes.len() - 1 {
            i
        } else {
            0
        });
    } else {
        assert(bytes.drop_last().len() == 0);
    }
    if m > 0 {
        lemma_pow_positive(256, (m - 1) as nat);
        lemma_div_denominator(high * 256 + last, 256, pow(256, (m - 1) as nat));
        assert((high * 256 + last) / 256 == high);
    } else {
        lemma_div_basics(high * 256 + last);
        assert((high * 256 + last) % 256 == last);
    }
}

/// A query is drawn from the fewest whole bytes that have as many bits as it.
pub proof fn law_bytes_per_query(bits: nat)
    ensures
        bits <= 8 * bytes_per_query(bits),
        bytes_per_query(bits) > 0 ==> 8 * (bytes_per_query(bits) - 1) < bits,
        bytes_per_query(bits) == (bits + 7) / 8,
{
}

/// The bytes of the group with the given index, of groups of `len` bytes.
pub open spec fn group(bytes: Seq<u8>, len: nat, i: int) -> Seq<u8> {
    bytes.subrange(i * len, i * len + len)
}

/// Every draw is queried: the number that its group of bytes writes, reduced below `2^bits`, is
/// among the queries.
pub proof fn law_draw_is_queried(bytes: Seq<u8>, num_queries: nat, bits: nat, i: int)
    requires
        0 <= i < num_queries,
    ensures
        query_indices(bytes, num_queries, bits).contains(
            (big_endian(group(bytes, (bits + 7) / 8, i)) % pow2(bits)) as usize,
        ),
{
    let all = drawn(bytes, num_queries, bits);
    law_sorted_set(all);
    assert(all.contains(all[i]));
    assert(sorted_set(all).contains(all[i]));
}

/// Every query was drawn: it is the number that one of the groups of bytes writes, reduced below
/// `2^bits`.
pub proof fn law_query_was_drawn(bytes: Seq<u8>, num_queries: nat, bits: nat, j: int)
    requires
        0 <= j < query_indices(bytes, num_queries, bits).len(),
    ensures
        exists|i: int|
            0 <= i < num_queries && query_indices(bytes, num_queries, bits)[j] == (big_endian(
                #[trigger] group(bytes, (bits + 7) / 8, i),
            ) % pow2(bits)) as usize,
{
    let all = drawn(bytes, num_queries, bits);
    let q = query_indices(bytes, num_queries, bits);
    law_sorted_set(all);
    assert(q.contains(q[j]));
    let i = choose|i: int| 0 <= i < all.len() && all[i] == q[j];
    let g = group(bytes, (bits + 7) / 8, i);
    assert(q[j] == (big_endian(g) % pow2(bits)) as usize);
}

/// There is one answer for each sample: the value there of the polynomial in one variable with the
/// same coefficients.
pub proof fn law_ood_answers(c: Seq<Ext>, points: Seq<Ext>, n: nat)
    requires
        c.len() == pow2(n),
        all_canonical(c),
    ensures
        ood_answers(c, points, n).len() == points.len(),
        forall|i: int|
            0 <= i < points.len() ==> #[trigger] ood_answers(c, points, n)[i] == univariate(
                c,
                points[i],
            ),
{
    assert forall|i: int| 0 <= i < points.len() implies #[trigger] ood_answers(c, points, n)[i]
        == univariate(c, points[i]) by {
        law_expand_is_univariate(c, points[i], n);
    }
}

/// The samples are received, and then the answers are sent; without samples there is no step.
pub proof fn law_ood_steps(c: Seq<Ext>, points: Seq<Ext>, n: nat)
    ensures
        points.len() == 0 ==> ood_trace(c, points, n).len() == 0,
        points.len() > 0 ==> {
            &&& ood_trace(c, points, n).len() == 2
            &&& ood_trace(c, points, n)[0] == Entry::Challenge(points)
            &&& ood_trace(c, points, n)[1] == Entry::Scalars(ood_answers(c, points, n))
        },
{
}

} // verus!
