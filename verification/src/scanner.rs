//! Range scanners: collect the numbers satisfying a composite
//! specification, either the first `limit` matches from a start point or
//! every match in a half-open range (the latter evaluated in parallel).

use vstd::prelude::*;

use rayon::iter::IntoParallelRefIterator;
use rayon::iter::ParallelIterator;

verus! {

use crate::composer::{
    define_functions, is_valid_number, spec_has_all_sep, spec_is_valid, spec_resolve, Predicate,
};

/// The numbers `start`, `start + 1`, ... up to but excluding `end`.
pub open spec fn range_seq(start: int, end: int) -> Seq<usize> {
    Seq::new(
        if end >= start {
            (end - start) as nat
        } else {
            0
        },
        |j: int| (start + j) as usize,
    )
}

/// The numbers in `[start, end)` satisfying the resolved predicates, in
/// ascending order.
pub open spec fn matching_in_range(
    preds: Seq<Predicate>,
    conj: bool,
    start: int,
    end: int,
) -> Seq<usize> {
    range_seq(start, end).filter(|v: usize| spec_is_valid(preds, conj, v as int))
}

/// Appending one candidate to a range extends its match list by that
/// candidate exactly when the candidate satisfies the predicates.
proof fn lemma_matching_extend(preds: Seq<Predicate>, conj: bool, start: int, end: int)
    requires
        start <= end,
        end + 1 <= usize::MAX + 1,
        0 <= start,
    ensures
        matching_in_range(preds, conj, start, end + 1) == if spec_is_valid(preds, conj, end) {
            matching_in_range(preds, conj, start, end).push(end as usize)
        } else {
            matching_in_range(preds, conj, start, end)
        },
{
    let shorter = range_seq(start, end);
    let longer = range_seq(start, end + 1);
    assert(longer =~= shorter.push(end as usize));
    reveal(Seq::filter);
    assert(shorter.push(end as usize).drop_last() =~= shorter);
}

/// Relies on rayon's parallel iterators: `par_iter` over a `Vec` is an
/// indexed parallel iterator, so `filter` keeps the input order and
/// `collect` gathers the survivors into a `Vec` in that order; the filter
/// closure only calls the verified `is_valid_number`.
#[verifier::external_body]
fn par_filter_matching(numbers: Vec<usize>, functions: &Vec<Predicate>, conj: bool) -> (r: Vec<
    usize,
>)
    ensures
        r@ == numbers@.filter(|v: usize| spec_is_valid(functions@, conj, v as int)),
{
    numbers.par_iter().filter(|&&num| is_valid_number(num, functions, conj)).cloned().collect()
}

/// Scan upward from `start`, keeping every number the specification
/// accepts, until `limit` numbers have been collected (or the whole
/// remaining domain has been tried).
pub fn compute_numbers_limit(start: usize, ntype: &str, limit: usize) -> (r: Vec<usize>)
    ensures
        r@.len() <= limit,
        exists|e: int|
            start <= e <= usize::MAX + 1 && r@ == matching_in_range(
                spec_resolve(ntype@),
                spec_has_all_sep(ntype@),
                start as int,
                e,
            ) && (r@.len() == limit || e == usize::MAX + 1),
{
    let (functions, switch) = define_functions(ntype);
    let mut result: Vec<usize> = Vec::new();
    let mut num = start;
    let ghost preds = spec_resolve(ntype@);
    let ghost conj = spec_has_all_sep(ntype@);
    proof {
        assert(matching_in_range(preds, conj, start as int, start as int) =~= Seq::<
            usize,
        >::empty()) by {
            assert(range_seq(start as int, start as int) =~= Seq::<usize>::empty());
            reveal(Seq::filter);
        }
    }
    loop
        invariant_except_break
            functions@ == preds,
            switch == conj,
            preds == spec_resolve(ntype@),
            conj == spec_has_all_sep(ntype@),
            start <= num,
            result@.len() <= limit,
            result@ == matching_in_range(preds, conj, start as int, num as int),
        ensures
            result@.len() <= limit,
            exists|e: int|
                start <= e <= usize::MAX + 1 && result@ == matching_in_range(
                    spec_resolve(ntype@),
                    spec_has_all_sep(ntype@),
                    start as int,
                    e,
                ) && (result@.len() == limit || e == usize::MAX + 1),
        decreases usize::MAX - num,
    {
        if result.len() == limit {
            proof {
                assert(start <= num as int <= usize::MAX + 1 && result@ == matching_in_range(
                    preds,
                    conj,
                    start as int,
                    num as int,
                ) && (result@.len() == limit || num as int == usize::MAX + 1));
            }
            break;
        }
        let accept = is_valid_number(num, functions.as_slice(), switch);
        proof {
            lemma_matching_extend(preds, conj, start as int, num as int);
        }
        if accept {
            result.push(num);
        }
        if num == usize::MAX {
            proof {
                let e = usize::MAX + 1;
                assert(start <= e <= usize::MAX + 1 && result@ == matching_in_range(
                    preds,
                    conj,
                    start as int,
                    e,
                ) && (result@.len() == limit || e == usize::MAX + 1));
            }
            break;
        }
        num = num + 1;
    }
    result
}

/// Collect every number in `[start, end)` the specification accepts, in
/// ascending order; the candidates are tested in parallel.
pub fn compute_numbers_end(start: usize, ntype: &str, end: usize) -> (r: Vec<usize>)
    ensures
        r@ == matching_in_range(
            spec_resolve(ntype@),
            spec_has_all_sep(ntype@),
            start as int,
            end as int,
        ),
{
    let (functions, switch) = define_functions(ntype);
    let mut numbers: Vec<usize> = Vec::new();
    let mut num = start;
    while num < end
        invariant
            start <= num,
            num <= end || num == start,
            numbers@ == range_seq(start as int, num as int),
        decreases end - num,
    {
        numbers.push(num);
        proof {
            assert(numbers@ =~= range_seq(start as int, num as int + 1));
        }
        num = num + 1;
    }
    proof {
        assert(numbers@ =~= range_seq(start as int, end as int));
    }
    let r = par_filter_matching(numbers, &functions, switch);
    proof {
        assert(r@ == matching_in_range(
            spec_resolve(ntype@),
            spec_has_all_sep(ntype@),
            start as int,
            end as int,
        ));
    }
    r
}

/// A shorter scan range yields a prefix of a longer one's matches.
proof fn lemma_matching_prefix(preds: Seq<Predicate>, conj: bool, start: int, e: int, e2: int)
    requires
        0 <= start <= e <= e2 <= usize::MAX + 1,
    ensures
        matching_in_range(preds, conj, start, e).len() <= matching_in_range(
            preds,
            conj,
            start,
            e2,
        ).len(),
        matching_in_range(preds, conj, start, e) == matching_in_range(
            preds,
            conj,
            start,
            e2,
        ).subrange(0, matching_in_range(preds, conj, start, e).len() as int),
    decreases e2 - e,
{
    let short = matching_in_range(preds, conj, start, e);
    let long = matching_in_range(preds, conj, start, e2);
    if e == e2 {
        assert(short =~= long.subrange(0, short.len() as int));
    } else {
        lemma_matching_extend(preds, conj, start, e2 - 1);
        lemma_matching_prefix(preds, conj, start, e, e2 - 1);
        let mid = matching_in_range(preds, conj, start, e2 - 1);
        if spec_is_valid(preds, conj, e2 - 1) {
            assert(long == mid.push((e2 - 1) as usize));
            assert(short =~= long.subrange(0, short.len() as int));
        }
    }
}

/// Any two results that both satisfy the bounded-count scan's contract are
/// the same sequence: the contract pins the output down, so re-running a
/// scan with identical arguments yields identical output.
pub proof fn lemma_limit_scan_unique(
    preds: Seq<Predicate>,
    conj: bool,
    start: int,
    limit: int,
    r1: Seq<usize>,
    e1: int,
    r2: Seq<usize>,
    e2: int,
)
    requires
        0 <= start <= e1 <= usize::MAX + 1,
        start <= e2 <= usize::MAX + 1,
        r1 == matching_in_range(preds, conj, start, e1),
        r2 == matching_in_range(preds, conj, start, e2),
        r1.len() <= limit,
        r2.len() <= limit,
        r1.len() == limit || e1 == usize::MAX + 1,
        r2.len() == limit || e2 == usize::MAX + 1,
    ensures
        r1 == r2,
{
    if e1 < e2 {
        assert(r1.len() == limit);
        lemma_matching_prefix(preds, conj, start, e1, e2);
        assert(r2.subrange(0, r2.len() as int) =~= r2);
    } else if e2 < e1 {
        assert(r2.len() == limit);
        lemma_matching_prefix(preds, conj, start, e2, e1);
        assert(r1.subrange(0, r1.len() as int) =~= r1);
    }
}

} // verus!
