//! The result of a command run against a database, as a line interface shows
//! it: nothing, at most one row, or a list of rows.
use vstd::prelude::*;

verus! {

/// The result of a command.
#[derive(Debug)]
pub enum Output<T> {
    Done,
    ResultOne(Option<T>),
    ResultMany(Vec<T>),
}

impl<T> Output<T> {
    /// The same result with `f` applied to each row.
    pub fn fmap<U, F: Fn(T) -> U>(self, f: F) -> (r: Output<U>)
        requires
            forall|t: T| #[trigger] f.requires((t,)),
        ensures
            match (self, r) {
                (Output::Done, Output::Done) => true,
                (Output::ResultOne(None), Output::ResultOne(None)) => true,
                (Output::ResultOne(Some(a)), Output::ResultOne(Some(b))) => f.ensures((a,), b),
                (Output::ResultMany(xs), Output::ResultMany(ys)) => ys@.len() == xs@.len()
                    && forall|i: int| 0 <= i < xs@.len() ==> f.ensures((xs@[i],), #[trigger] ys@[i]),
                _ => false,
            },
    {
        match self {
            Output::Done => Output::Done,
            Output::ResultOne(r) => Output::ResultOne(
                match r {
                    Some(x) => Some(f(x)),
                    None => None,
                },
            ),
            Output::ResultMany(r) => {
                let ghost orig = r@;
                let mut rest = r;
                let mut out: Vec<U> = Vec::new();
                assert(orig.skip(0) =~= orig);
                while rest.len() > 0
                    invariant
                        0 <= out@.len() <= orig.len(),
                        rest@ == orig.skip(out@.len() as int),
                        forall|t: T| #[trigger] f.requires((t,)),
                        forall|i: int|
                            0 <= i < out@.len() ==> f.ensures((orig[i],), #[trigger] out@[i]),
                    decreases rest@.len(),
                {
                    let ghost k = out@.len() as int;
                    let x = rest.remove(0);
                    assert(x == orig[k]);
                    assert(rest@ =~= orig.skip(k + 1));
                    let y = f(x);
                    out.push(y);
                }
                Output::ResultMany(out)
            },
        }
    }
}

} // verus!
