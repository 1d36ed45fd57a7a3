use vstd::prelude::*;
use rand::rngs::StdRng;
use rand::Rng;
use rand::SeedableRng;

verus! {

/// rand's standard generator, carried through the carving as an opaque value.
#[verifier::external_type_specification]
#[verifier::external_body]
pub struct ExStdRng(StdRng);

/// Relies on rand's `SeedableRng::from_entropy`: a generator seeded from the
/// operating system's randomness. Nothing is promised of it; rand panics
/// only when the operating system provides no entropy at all.
#[verifier::external_body]
pub(crate) fn entropy_rng() -> (r: StdRng) {
    StdRng::from_entropy()
}

/// Relies on rand's `SeedableRng::seed_from_u64`: a generator whose stream is
/// fixed by `seed`.
#[verifier::external_body]
pub(crate) fn seeded_rng(seed: u64) -> (r: StdRng) {
    StdRng::seed_from_u64(seed)
}

/// Relies on rand's `Rng::gen_range` over `0..n`: a uniform draw below `n`
/// (it panics on an empty range, which `requires` leaves out).
#[verifier::external_body]
pub(crate) fn pick_below(rng: &mut StdRng, n: usize) -> (r: usize)
    requires
        n > 0,
    ensures
        r < n,
{
    rng.gen_range(0..n)
}

/// Where the carving takes its choices from: a random generator, or a fixed
/// script of numbers read in order (each taken modulo the number of options,
/// and 0 once the script runs out).
pub enum Chooser {
    Random(StdRng),
    Scripted(Vec<usize>, usize),
}

impl Chooser {
    /// The choices come from a script.
    pub open spec fn is_scripted(&self) -> bool {
        self is Scripted
    }

    /// The script, if any.
    pub open spec fn script(&self) -> Seq<usize> {
        match self {
            Chooser::Scripted(p, _) => p@,
            Chooser::Random(_) => Seq::empty(),
        }
    }

    /// How far the script has been read.
    pub open spec fn cursor(&self) -> nat {
        match self {
            Chooser::Scripted(_, k) => *k as nat,
            Chooser::Random(_) => 0,
        }
    }

    /// A choice below `n`.
    pub fn next_choice(&mut self, n: usize) -> (r: usize)
        requires
            n > 0,
            old(self).cursor() <= old(self).script().len(),
        ensures
            r < n,
            final(self).is_scripted() == old(self).is_scripted(),
            final(self).script() == old(self).script(),
            old(self).is_scripted() ==> {
                &&& old(self).cursor() < old(self).script().len() ==> {
                    &&& r == old(self).script()[old(self).cursor() as int] % n
                    &&& final(self).cursor() == old(self).cursor() + 1
                }
                &&& old(self).cursor() == old(self).script().len() ==> {
                    &&& r == 0
                    &&& final(self).cursor() == old(self).cursor()
                }
            },
    {
        match self {
            Chooser::Random(rng) => pick_below(rng, n),
            Chooser::Scripted(picks, next) => {
                if *next < picks.len() {
                    let r = picks[*next] % n;
                    *next = *next + 1;
                    r
                } else {
                    0
                }
            },
        }
    }
}

} // verus!
