use vstd::prelude::*;

verus! {

/// Aggregate of every per-instrument failure in one batch run. A batch
/// never stops at the first failure: each instrument is processed and the
/// causes are collected, in order, into one error.
pub struct ProcessingError<E> {
    pub errs: Vec<E>,
}

/// The failures among a batch's per-instrument results, in order.
pub open spec fn errs_of<E>(results: Seq<Result<(), E>>) -> Seq<E>
    decreases results.len(),
{
    if results.len() == 0 {
        Seq::empty()
    } else {
        match results.last() {
            Ok(_) => errs_of(results.drop_last()),
            Err(e) => errs_of(results.drop_last()).push(e),
        }
    }
}

/// How many of a batch's results failed.
pub open spec fn err_count<E>(results: Seq<Result<(), E>>) -> int
    decreases results.len(),
{
    if results.len() == 0 {
        0
    } else {
        err_count(results.drop_last()) + (if results.last() is Err {
            1int
        } else {
            0int
        })
    }
}

/// A batch over N instruments of which exactly K fail aggregates exactly K
/// underlying causes.
pub proof fn lemma_aggregate_counts<E>(results: Seq<Result<(), E>>)
    ensures
        errs_of(results).len() == err_count(results),
    decreases results.len(),
{
    if results.len() > 0 {
        lemma_aggregate_counts(results.drop_last());
    }
}

/// Folds a finished batch's per-instrument results into one outcome:
/// success only when every instrument succeeded, otherwise the aggregate of
/// every failure, in input order.
pub fn collect_errors<E>(results: Vec<Result<(), E>>) -> (r: Result<(), ProcessingError<E>>)
    ensures
        match r {
            Ok(_) => errs_of(results@).len() == 0,
            Err(agg) => errs_of(results@).len() > 0 && agg.errs@ == errs_of(results@),
        },
{
    let ghost orig = results@;
    let mut rest = results;
    let mut errs: Vec<E> = Vec::new();
    let ghost mut done: Seq<Result<(), E>> = Seq::empty();
    proof {
        assert(orig =~= done + rest@);
        assert(errs@ =~= errs_of(done));
    }
    let mut n = rest.len();
    while n > 0
        invariant
            n == rest@.len(),
            orig == done + rest@,
            errs@ == errs_of(done),
        decreases n,
    {
        let x = rest.remove(0);
        proof {
            assert(done.push(x).drop_last() =~= done);
            assert(done.push(x).last() == x);
        }
        match x {
            Ok(_) => {},
            Err(e) => {
                errs.push(e);
            },
        }
        proof {
            done = done.push(x);
            assert(orig =~= done + rest@);
        }
        n = n - 1;
    }
    proof {
        assert(done =~= orig);
    }
    if errs.len() == 0 {
        Ok(())
    } else {
        Err(ProcessingError { errs })
    }
}

} // verus!
