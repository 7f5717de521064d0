//! The production problem: nine quantities in, an optimal plan out.
use crate::tableau::{
    add_view, finish_view, is_optimal_view, is_unbounded_view, new_view, pivot_overflows, reaches,
    settles, solution, solves, unbounded_from, BuildError, SimplexError, SolvedSimplex,
    TableauBuilder, TableauView,
};
use vstd::prelude::*;

verus! {

/// What the command line asks for.
pub enum Commands {
    /// Solve the problem with these quantities.
    Program(Arguments),
    /// Show the usage text.
    Help,
}

/// Tons of the four fertilizers and unit prices of the five grains.
#[derive(Debug, Clone, Copy, PartialEq, Eq)]
pub struct Arguments {
    pub n1: u64,
    pub n2: u64,
    pub n3: u64,
    pub n4: u64,
    pub po: u64,
    pub pw: u64,
    pub pc: u64,
    pub pb: u64,
    pub ps: u64,
}

/// Number of quantities the program takes.
pub const TOTAL_ARGS: usize = 9;

/// Why the arguments were refused.
#[derive(Debug, Clone, Copy, PartialEq, Eq, Structural)]
pub enum ArgumentError {
    /// The number of quantities is not nine; the count given.
    InvalidCount(usize),
}

/// Why the plan could not be computed.
#[derive(Debug, Clone, Copy, PartialEq, Eq, Structural)]
pub enum ProgramError {
    Build(BuildError),
    Solve(SimplexError),
}

impl Commands {
    /// The command for the given quantities, in the order
    /// `n1 n2 n3 n4 po pw pc pb ps`.
    pub fn from_values(values: &[u64]) -> (r: Result<Commands, ArgumentError>)
        ensures
            r is Err <==> values@.len() != TOTAL_ARGS,
            r matches Err(e) ==> e == ArgumentError::InvalidCount(values@.len() as usize),
            r matches Ok(c) ==> c matches Commands::Program(a) && a == (Arguments {
                n1: values@[0],
                n2: values@[1],
                n3: values@[2],
                n4: values@[3],
                po: values@[4],
                pw: values@[5],
                pc: values@[6],
                pb: values@[7],
                ps: values@[8],
            }),
    {
        if values.len() != TOTAL_ARGS {
            return Err(ArgumentError::InvalidCount(values.len()));
        }
        Ok(
            Commands::Program(
                Arguments {
                    n1: values[0],
                    n2: values[1],
                    n3: values[2],
                    n4: values[3],
                    po: values[4],
                    pw: values[5],
                    pc: values[6],
                    pb: values[7],
                    ps: values[8],
                },
            ),
        )
    }
}

/// Fertilizer use of each grain, one row per fertilizer.
pub open spec fn fertilizer_row(i: int) -> Seq<u64> {
    if i == 0 {
        seq![1, 0, 1, 0, 2]
    } else if i == 1 {
        seq![1, 2, 0, 1, 0]
    } else if i == 2 {
        seq![2, 1, 0, 1, 0]
    } else {
        seq![0, 0, 3, 1, 2]
    }
}

/// The tableau of the production problem for these quantities.
pub open spec fn production_view(a: Arguments) -> TableauView {
    let t0 = new_view(seq![a.po, a.pw, a.pc, a.pb, a.ps]);
    let t1 = add_view(t0, fertilizer_row(0), a.n1);
    let t2 = add_view(t1, fertilizer_row(1), a.n2);
    let t3 = add_view(t2, fertilizer_row(2), a.n3);
    let t4 = add_view(t3, fertilizer_row(3), a.n4);
    finish_view(t4)
}

fn row_of(a: u64, b: u64, c: u64, d: u64, e: u64) -> (r: Vec<u64>)
    ensures
        r@ == seq![a, b, c, d, e],
{
    let mut r: Vec<u64> = Vec::new();
    r.push(a);
    r.push(b);
    r.push(c);
    r.push(d);
    r.push(e);
    assert(r@ =~= seq![a, b, c, d, e]);
    r
}

/// Builds the production problem and solves it.
pub fn program(arguments: &Arguments) -> (r: Result<SolvedSimplex, ProgramError>)
    ensures
        r matches Ok(s) ==> solves(production_view(*arguments), s.coefs@),
        r matches Err(e) ==> e is Solve,
        r == Err::<SolvedSimplex, ProgramError>(ProgramError::Solve(SimplexError::Unbounded))
            ==> unbounded_from(production_view(*arguments)),
        r == Err::<SolvedSimplex, ProgramError>(ProgramError::Solve(SimplexError::Overflow))
            ==> exists|n: nat, u: TableauView|
            reaches(production_view(*arguments), u, n) && !is_optimal_view(u) && pivot_overflows(
                u,
            ),
        r == Err::<SolvedSimplex, ProgramError>(ProgramError::Solve(SimplexError::PivotLimit))
            ==> exists|u: TableauView|
            reaches(production_view(*arguments), u, u64::MAX as nat) && !is_optimal_view(u),
        forall|n: nat, u: TableauView|
            #[trigger] reaches(production_view(*arguments), u, n) && n < u64::MAX ==> {
                &&& is_optimal_view(u) ==> r is Ok && r->Ok_0.coefs@ == solution(u)
                &&& !is_optimal_view(u) && pivot_overflows(u) ==> r == Err::<
                    SolvedSimplex,
                    ProgramError,
                >(ProgramError::Solve(SimplexError::Overflow))
                &&& !is_optimal_view(u) && is_unbounded_view(u) && !pivot_overflows(u) ==> r
                    == Err::<SolvedSimplex, ProgramError>(
                    ProgramError::Solve(SimplexError::Unbounded),
                )
            },
{
    let a = *arguments;
    let prices = row_of(a.po, a.pw, a.pc, a.pb, a.ps);
    let c0 = row_of(1, 0, 1, 0, 2);
    let c1 = row_of(1, 2, 0, 1, 0);
    let c2 = row_of(2, 1, 0, 1, 0);
    let c3 = row_of(0, 0, 3, 1, 2);
    let b = TableauBuilder::new(prices.as_slice());
    let b = match b.add_constraint(c0.as_slice(), a.n1) {
        Ok(b) => b,
        Err(e) => return Err(ProgramError::Build(e)),
    };
    let b = match b.add_constraint(c1.as_slice(), a.n2) {
        Ok(b) => b,
        Err(e) => return Err(ProgramError::Build(e)),
    };
    let b = match b.add_constraint(c2.as_slice(), a.n3) {
        Ok(b) => b,
        Err(e) => return Err(ProgramError::Build(e)),
    };
    let b = match b.add_constraint(c3.as_slice(), a.n4) {
        Ok(b) => b,
        Err(e) => return Err(ProgramError::Build(e)),
    };
    let t = b.get_tableau();
    let ghost pv = t@;
    let res = t.apply_simplex();
    let r = match res {
        Ok(s) => Ok(s),
        Err(e) => Err(ProgramError::Solve(e)),
    };
    proof {
        assert forall|n: nat, u: TableauView| #[trigger] reaches(pv, u, n) && n < u64::MAX implies {
            &&& is_optimal_view(u) ==> r is Ok && r->Ok_0.coefs@ == solution(u)
            &&& !is_optimal_view(u) && pivot_overflows(u) ==> r == Err::<
                SolvedSimplex,
                ProgramError,
            >(ProgramError::Solve(SimplexError::Overflow))
            &&& !is_optimal_view(u) && is_unbounded_view(u) && !pivot_overflows(u) ==> r == Err::<
                SolvedSimplex,
                ProgramError,
            >(ProgramError::Solve(SimplexError::Unbounded))
        } by {
            assert(settles(u, res));
        }
        if r == Err::<SolvedSimplex, ProgramError>(ProgramError::Solve(SimplexError::Overflow)) {
            assert(res == Err::<SolvedSimplex, SimplexError>(SimplexError::Overflow));
            let (n, u) = choose|n: nat, u: TableauView|
                reaches(pv, u, n) && !is_optimal_view(u) && pivot_overflows(u);
            assert(reaches(production_view(*arguments), u, n));
        }
    }
    r
}

} // verus!
