//! The visibility lattice `Constant < Public < Private`.

use vstd::prelude::*;

verus! {

/// Visibility of a value inside a circuit.
///
/// A constant is known to prover and verifier and needs no constraint, a public
/// value is bound to a witness and revealed, a private value is bound to a
/// witness and hidden.
#[derive(Clone, Copy, Debug, PartialEq, Eq, Structural)]
pub enum Mode {
    Constant,
    Public,
    Private,
}

impl Mode {
    /// Position of the mode in the order `Constant < Public < Private`.
    pub open spec fn rank(self) -> nat {
        match self {
            Mode::Constant => 0,
            Mode::Public => 1,
            Mode::Private => 2,
        }
    }

    /// The larger of two modes.
    pub open spec fn spec_join(self, other: Mode) -> Mode {
        if self.rank() >= other.rank() {
            self
        } else {
            other
        }
    }

    /// The least mode that is at least `self` and at least `other`.
    #[verifier::when_used_as_spec(spec_join)]
    pub fn join(self, other: Mode) -> (joined: Mode)
        ensures
            joined == self.spec_join(other),
    {
        match self {
            Mode::Private => Mode::Private,
            Mode::Public => match other {
                Mode::Private => Mode::Private,
                _ => Mode::Public,
            },
            Mode::Constant => other,
        }
    }

    pub open spec fn spec_is_constant(self) -> bool {
        self == Mode::Constant
    }

    /// Whether a value of this mode is known when the circuit is built.
    #[verifier::when_used_as_spec(spec_is_constant)]
    pub fn is_constant(self) -> (constant: bool)
        ensures
            constant == (self == Mode::Constant),
    {
        match self {
            Mode::Constant => true,
            _ => false,
        }
    }
}

/// The join of a whole sequence of modes; `Constant` for the empty sequence.
pub open spec fn join_all(modes: Seq<Mode>) -> Mode
    decreases modes.len(),
{
    if modes.len() == 0 {
        Mode::Constant
    } else {
        join_all(modes.drop_last()).spec_join(modes.last())
    }
}

/// Joins the modes of all inputs of an operation.
pub fn join_modes(modes: &Vec<Mode>) -> (joined: Mode)
    ensures
        joined == join_all(modes@),
{
    let mut joined = Mode::Constant;
    let mut i: usize = 0;
    while i < modes.len()
        invariant
            i <= modes.len(),
            joined == join_all(modes@.take(i as int)),
        decreases modes.len() - i,
    {
        assert(modes@.take(i + 1).drop_last() =~= modes@.take(i as int));
        joined = joined.join(modes[i]);
        i = i + 1;
    }
    assert(modes@.take(i as int) =~= modes@);
    joined
}

/// The join is the maximum under `Constant < Public < Private`.
pub proof fn lemma_join_is_max(a: Mode, b: Mode)
    ensures
        a.spec_join(b).rank() == if a.rank() >= b.rank() { a.rank() } else { b.rank() },
        a.spec_join(b) == a || a.spec_join(b) == b,
{
}

/// The join is commutative, associative and idempotent, and `Constant` is its unit.
pub proof fn lemma_join_laws(a: Mode, b: Mode, c: Mode)
    ensures
        a.spec_join(b) == b.spec_join(a),
        a.spec_join(b).spec_join(c) == a.spec_join(b.spec_join(c)),
        a.spec_join(a) == a,
        Mode::Constant.spec_join(a) == a,
        a.spec_join(Mode::Private) == Mode::Private,
{
}

/// The join of a sequence is an upper bound of every member, and it is
/// `Constant` exactly when every member is.
pub proof fn lemma_join_all_bounds(modes: Seq<Mode>)
    ensures
        forall|i: int| 0 <= i < modes.len() ==> modes[i].rank() <= join_all(modes).rank(),
        join_all(modes) == Mode::Constant <==> forall|i: int|
            0 <= i < modes.len() ==> modes[i] == Mode::Constant,
    decreases modes.len(),
{
    if modes.len() > 0 {
        lemma_join_all_bounds(modes.drop_last());
        assert forall|i: int| 0 <= i < modes.len() implies modes[i].rank() <= join_all(
            modes,
        ).rank() by {
            if i < modes.len() - 1 {
                assert(modes.drop_last()[i] == modes[i]);
            }
        }
        if join_all(modes) == Mode::Constant {
            assert forall|i: int| 0 <= i < modes.len() implies modes[i] == Mode::Constant by {
                assert(modes[i].rank() <= 0);
            }
        } else if forall|i: int| 0 <= i < modes.len() ==> modes[i] == Mode::Constant {
            assert forall|i: int| 0 <= i < modes.drop_last().len() implies modes.drop_last()[i]
                == Mode::Constant by {
                assert(modes.drop_last()[i] == modes[i]);
            }
            assert(modes.last() == modes[modes.len() - 1]);
        }
    }
}

} // verus!
