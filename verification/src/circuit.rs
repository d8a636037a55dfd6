//! The boolean-wire constraint system that gadgets build into.
//!
//! A circuit is a list of boolean wires, each allocated in a mode and holding
//! its assigned value, and a list of relations enforced between them. Gadgets
//! only ever append to both. The counts of wires per mode and of relations are
//! the resources that the cost model predicts.

use crate::mode::Mode;
use vstd::prelude::*;

verus! {

/// Resources taken by a piece of circuit: wires of each mode, and relations.
#[derive(Clone, Copy, Debug, PartialEq, Eq, Structural)]
pub struct CircuitCount {
    pub constants: u64,
    pub public_variables: u64,
    pub private_variables: u64,
    pub constraints: u64,
}

/// The mathematical value of a [`CircuitCount`].
pub struct Tally {
    pub constants: nat,
    pub public_variables: nat,
    pub private_variables: nat,
    pub constraints: nat,
}

impl Tally {
    pub open spec fn zero() -> Tally {
        Tally { constants: 0, public_variables: 0, private_variables: 0, constraints: 0 }
    }

    pub open spec fn plus(self, other: Tally) -> Tally {
        Tally {
            constants: self.constants + other.constants,
            public_variables: self.public_variables + other.public_variables,
            private_variables: self.private_variables + other.private_variables,
            constraints: self.constraints + other.constraints,
        }
    }

    /// The sum of `k` copies.
    pub open spec fn times(self, k: nat) -> Tally
        decreases k,
    {
        if k == 0 {
            Tally::zero()
        } else {
            self.times((k - 1) as nat).plus(self)
        }
    }

    /// Whether every count fits the executable representation.
    pub open spec fn fits(self) -> bool {
        &&& self.constants <= u64::MAX
        &&& self.public_variables <= u64::MAX
        &&& self.private_variables <= u64::MAX
        &&& self.constraints <= u64::MAX
    }
}

impl View for CircuitCount {
    type V = Tally;

    open spec fn view(&self) -> Tally {
        Tally {
            constants: self.constants as nat,
            public_variables: self.public_variables as nat,
            private_variables: self.private_variables as nat,
            constraints: self.constraints as nat,
        }
    }
}

impl CircuitCount {
    /// The empty count.
    pub fn zero() -> (count: CircuitCount)
        ensures
            count@ == Tally::zero(),
    {
        CircuitCount { constants: 0, public_variables: 0, private_variables: 0, constraints: 0 }
    }

    /// The sum of two counts.
    pub fn plus(self, other: CircuitCount) -> (count: CircuitCount)
        requires
            self@.plus(other@).fits(),
        ensures
            count@ == self@.plus(other@),
    {
        CircuitCount {
            constants: self.constants + other.constants,
            public_variables: self.public_variables + other.public_variables,
            private_variables: self.private_variables + other.private_variables,
            constraints: self.constraints + other.constraints,
        }
    }
}

/// The sum of `k` copies of a tally is `k` times each count.
pub proof fn lemma_times(t: Tally, k: nat)
    ensures
        t.times(k).constants == k * t.constants,
        t.times(k).public_variables == k * t.public_variables,
        t.times(k).private_variables == k * t.private_variables,
        t.times(k).constraints == k * t.constraints,
    decreases k,
{
    if k > 0 {
        lemma_times(t, (k - 1) as nat);
        let j = (k - 1) as nat;
        assert(j * t.constants + t.constants == k * t.constants) by (nonlinear_arith)
            requires
                j + 1 == k,
        ;
        assert(j * t.public_variables + t.public_variables == k * t.public_variables)
            by (nonlinear_arith)
            requires
                j + 1 == k,
        ;
        assert(j * t.private_variables + t.private_variables == k * t.private_variables)
            by (nonlinear_arith)
            requires
                j + 1 == k,
        ;
        assert(j * t.constraints + t.constraints == k * t.constraints) by (nonlinear_arith)
            requires
                j + 1 == k,
        ;
    } else {
        assert(0 * t.constants == 0);
        assert(0 * t.public_variables == 0);
        assert(0 * t.private_variables == 0);
        assert(0 * t.constraints == 0);
    }
}

/// A reference to a wire, possibly read negated.
#[derive(Clone, Copy, Debug, PartialEq, Eq, Structural)]
pub struct Variable {
    pub mode: Mode,
    pub index: usize,
    pub inverted: bool,
}

/// A boolean relation between wires.
#[derive(Clone, Copy, Debug, PartialEq, Eq, Structural)]
pub enum Constraint {
    /// `a + b + c == sum + 2 * carry`, each wire read as 0 or 1.
    Sum { a: Variable, b: Variable, c: Variable, sum: Variable, carry: Variable },
    /// `a * b == out`.
    Product { a: Variable, b: Variable, out: Variable },
    /// `out` is `when_true` where `condition` holds and `when_false` where not.
    Select { condition: Variable, when_true: Variable, when_false: Variable, out: Variable },
}

/// A boolean wire as a gadget holds it: where it lives and the value it was
/// given when it was made.
#[derive(Clone, Copy, Debug, PartialEq, Eq, Structural)]
pub struct Boolean {
    pub value: bool,
    pub mode: Mode,
    pub index: usize,
    pub inverted: bool,
}

impl Boolean {
    pub open spec fn spec_variable(self) -> Variable {
        Variable { mode: self.mode, index: self.index, inverted: self.inverted }
    }

    /// The wire that this boolean reads.
    #[verifier::when_used_as_spec(spec_variable)]
    pub fn variable(self) -> (variable: Variable)
        ensures
            variable == self.spec_variable(),
    {
        Variable { mode: self.mode, index: self.index, inverted: self.inverted }
    }

    pub open spec fn spec_not(self) -> Boolean {
        Boolean { value: !self.value, mode: self.mode, index: self.index, inverted: !self.inverted }
    }

    /// The negation, read off the same wire at no cost.
    #[verifier::when_used_as_spec(spec_not)]
    pub fn not(self) -> (negated: Boolean)
        ensures
            negated == self.spec_not(),
    {
        Boolean { value: !self.value, mode: self.mode, index: self.index, inverted: !self.inverted }
    }
}

/// The values of a sequence of wires.
pub open spec fn values(wires: Seq<Boolean>) -> Seq<bool> {
    Seq::new(wires.len(), |i: int| wires[i].value)
}

/// The modes of a sequence of wires.
pub open spec fn modes(wires: Seq<Boolean>) -> Seq<Mode> {
    Seq::new(wires.len(), |i: int| wires[i].mode)
}

/// What allocating one wire of the given mode takes: the wire, and for a
/// witness the relation that keeps it boolean.
pub open spec fn wire_cost(mode: Mode) -> Tally {
    match mode {
        Mode::Constant => Tally {
            constants: 1,
            public_variables: 0,
            private_variables: 0,
            constraints: 0,
        },
        Mode::Public => Tally {
            constants: 0,
            public_variables: 1,
            private_variables: 0,
            constraints: 1,
        },
        Mode::Private => Tally {
            constants: 0,
            public_variables: 0,
            private_variables: 1,
            constraints: 1,
        },
    }
}

/// The mathematical content of a [`Circuit`].
pub struct CircuitView {
    pub constants: Seq<bool>,
    pub public: Seq<bool>,
    pub private: Seq<bool>,
    pub constraints: Seq<Constraint>,
    /// Where the public wires come from: nothing for a wire that was
    /// allocated freely, and for the output of a gate where its relation is.
    pub public_origin: Seq<Option<int>>,
    /// The same for each private wire.
    pub private_origin: Seq<Option<int>>,
}

impl CircuitView {
    pub open spec fn empty() -> CircuitView {
        CircuitView {
            constants: Seq::empty(),
            public: Seq::empty(),
            private: Seq::empty(),
            constraints: Seq::empty(),
            public_origin: Seq::empty(),
            private_origin: Seq::empty(),
        }
    }

    /// The origins of the wires of one mode. Constants have none.
    pub open spec fn origins(self, mode: Mode) -> Seq<Option<int>> {
        match mode {
            Mode::Constant => Seq::empty(),
            Mode::Public => self.public_origin,
            Mode::Private => self.private_origin,
        }
    }

    /// The wires of one mode, in the order of their allocation.
    pub open spec fn wires(self, mode: Mode) -> Seq<bool> {
        match mode {
            Mode::Constant => self.constants,
            Mode::Public => self.public,
            Mode::Private => self.private,
        }
    }

    /// The booleanity relation of a wire.
    pub open spec fn boolean_constraint(variable: Variable) -> Constraint {
        Constraint::Product { a: variable, b: variable, out: variable }
    }

    /// The circuit after one more wire of the given origin.
    pub open spec fn grow(self, mode: Mode, value: bool, origin: Option<int>) -> CircuitView {
        let variable = Variable { mode, index: self.wires(mode).len() as usize, inverted: false };
        match mode {
            Mode::Constant => CircuitView { constants: self.constants.push(value), ..self },
            Mode::Public => CircuitView {
                public: self.public.push(value),
                public_origin: self.public_origin.push(origin),
                constraints: self.constraints.push(Self::boolean_constraint(variable)),
                ..self
            },
            Mode::Private => CircuitView {
                private: self.private.push(value),
                private_origin: self.private_origin.push(origin),
                constraints: self.constraints.push(Self::boolean_constraint(variable)),
                ..self
            },
        }
    }

    /// The circuit after one more freely allocated wire.
    pub open spec fn allocate(self, mode: Mode, value: bool) -> CircuitView {
        self.grow(mode, value, None)
    }

    /// The position that the relation of a gate with an output wire of the
    /// given mode takes, where `others` relations come between.
    pub open spec fn gate_position(self, mode: Mode, others: int) -> int {
        self.constraints.len() + others + if mode == Mode::Constant {
            0int
        } else {
            1int
        }
    }

    /// The circuit after one more relation.
    pub open spec fn enforce(self, constraint: Constraint) -> CircuitView {
        CircuitView { constraints: self.constraints.push(constraint), ..self }
    }

    /// The circuit with the value of one witness wire replaced.
    pub open spec fn assign(self, mode: Mode, index: int, value: bool) -> CircuitView {
        match mode {
            Mode::Constant => self,
            Mode::Public => CircuitView { public: self.public.update(index, value), ..self },
            Mode::Private => CircuitView { private: self.private.update(index, value), ..self },
        }
    }

    /// The value that a variable reads, if its wire exists.
    pub open spec fn lookup(self, variable: Variable) -> Option<bool> {
        if variable.index < self.wires(variable.mode).len() {
            Some(self.wires(variable.mode)[variable.index as int] != variable.inverted)
        } else {
            None
        }
    }

    /// Whether the assigned values meet a relation. A relation over a wire
    /// that does not exist is not met.
    pub open spec fn holds(self, constraint: Constraint) -> bool {
        match constraint {
            Constraint::Sum { a, b, c, sum, carry } => {
                &&& self.lookup(a) matches Some(va)
                &&& self.lookup(b) matches Some(vb)
                &&& self.lookup(c) matches Some(vc)
                &&& self.lookup(sum) matches Some(vs)
                &&& self.lookup(carry) matches Some(vr)
                &&& count_true(va) + count_true(vb) + count_true(vc) == count_true(vs) + 2
                    * count_true(vr)
            },
            Constraint::Product { a, b, out } => {
                &&& self.lookup(a) matches Some(va)
                &&& self.lookup(b) matches Some(vb)
                &&& self.lookup(out) matches Some(vo)
                &&& (va && vb) == vo
            },
            Constraint::Select { condition, when_true, when_false, out } => {
                &&& self.lookup(condition) matches Some(vc)
                &&& self.lookup(when_true) matches Some(vt)
                &&& self.lookup(when_false) matches Some(vf)
                &&& self.lookup(out) matches Some(vo)
                &&& vo == if vc {
                    vt
                } else {
                    vf
                }
            },
        }
    }

    /// Whether the assigned values meet every relation.
    pub open spec fn satisfied(self) -> bool {
        forall|i: int| 0 <= i < self.constraints.len() ==> self.holds(#[trigger] self.constraints[i])
    }

    /// Whether the wire that `b` reads exists and reads the value that `b`
    /// holds.
    pub open spec fn binds(self, b: Boolean) -> bool {
        self.lookup(b.spec_variable()) == Some(b.value)
    }

    /// Whether the circuit binds every wire of the sequence.
    pub open spec fn binds_all(self, wires: Seq<Boolean>) -> bool {
        forall|i: int| 0 <= i < wires.len() ==> self.binds(#[trigger] wires[i])
    }

    /// The resources that the circuit holds.
    pub open spec fn tally(self) -> Tally {
        Tally {
            constants: self.constants.len(),
            public_variables: self.public.len(),
            private_variables: self.private.len(),
            constraints: self.constraints.len(),
        }
    }

    /// Whether this circuit is `old` with wires and relations appended.
    pub open spec fn extends(self, old: CircuitView) -> bool {
        &&& old.constants.is_prefix_of(self.constants)
        &&& old.public.is_prefix_of(self.public)
        &&& old.private.is_prefix_of(self.private)
        &&& old.constraints.is_prefix_of(self.constraints)
        &&& old.public_origin.is_prefix_of(self.public_origin)
        &&& old.private_origin.is_prefix_of(self.private_origin)
    }

    /// Whether the wire of a variable exists and was there before the
    /// relation at position `k`: it is a constant, or was allocated freely,
    /// or was made by a gate whose relation comes earlier.
    pub open spec fn before(self, v: Variable, k: int) -> bool {
        &&& v.index < self.wires(v.mode).len()
        &&& v.mode != Mode::Constant ==> v.index < self.origins(v.mode).len() && (self.origins(
            v.mode,
        )[v.index as int] matches Some(j) ==> j < k)
    }

    /// Whether every input of the relation was there before position `k`.
    pub open spec fn inputs_before(self, constraint: Constraint, k: int) -> bool {
        match constraint {
            Constraint::Sum { a, b, c, sum, carry } => self.before(a, k) && self.before(b, k)
                && self.before(c, k),
            Constraint::Product { a, b, out } => self.before(a, k) && self.before(b, k),
            Constraint::Select { condition, when_true, when_false, out } => self.before(
                condition,
                k,
            ) && self.before(when_true, k) && self.before(when_false, k),
        }
    }

    /// Whether the relation has the wire at `index` of the given mode as an
    /// output.
    pub open spec fn yields(constraint: Constraint, mode: Mode, index: int) -> bool {
        let wire = Variable { mode, index: index as usize, inverted: false };
        match constraint {
            Constraint::Sum { a, b, c, sum, carry } => sum == wire || carry == wire,
            Constraint::Product { a, b, out } => out == wire,
            Constraint::Select { condition, when_true, when_false, out } => out == wire,
        }
    }

    /// Whether the relation at position `k` is that of a gate that made the
    /// wire at `index` of the given mode from wires that were there before.
    pub open spec fn forced_by(self, mode: Mode, index: int, k: int) -> bool {
        &&& 0 <= k < self.constraints.len()
        &&& 0 <= index <= usize::MAX
        &&& Self::yields(self.constraints[k], mode, index)
        &&& self.inputs_before(self.constraints[k], k)
    }

    /// Whether every witness wire has its origin: it was allocated freely, or
    /// a gate made it from wires that were there before.
    pub open spec fn determined(self) -> bool {
        &&& self.public_origin.len() == self.public.len()
        &&& self.private_origin.len() == self.private.len()
        &&& forall|mode: Mode, i: int|
            #![trigger self.origins(mode)[i]]
            mode != Mode::Constant && 0 <= i < self.wires(mode).len() && self.origins(mode)[i]
                is Some ==> self.forced_by(mode, i, self.origins(mode)[i]->Some_0)
    }

    /// Whether the assignment meets every relation and every wire has its
    /// origin.
    pub open spec fn sound(self) -> bool {
        self.satisfied() && self.determined()
    }

    /// Whether the two are the same circuit under two assignments: the same
    /// constants, relations and origins, and as many witness wires.
    pub open spec fn same_circuit(self, other: CircuitView) -> bool {
        &&& self.constants == other.constants
        &&& self.constraints == other.constraints
        &&& self.public_origin == other.public_origin
        &&& self.private_origin == other.private_origin
        &&& self.public.len() == other.public.len()
        &&& self.private.len() == other.private.len()
    }

    /// Whether the two assignments agree on every freely allocated wire.
    pub open spec fn agree_free(self, other: CircuitView) -> bool {
        forall|mode: Mode, i: int|
            #![trigger self.origins(mode)[i]]
            mode != Mode::Constant && 0 <= i < self.wires(mode).len() && self.origins(mode)[i]
                is None ==> self.wires(mode)[i] == other.wires(mode)[i]
    }
}

/// A variable that a circuit reads is read alike by every circuit that
/// extends it.
pub proof fn lemma_lookup_extends(old: CircuitView, new: CircuitView, v: Variable)
    requires
        new.extends(old),
        old.lookup(v) is Some,
    ensures
        new.lookup(v) == old.lookup(v),
{
    assert(new.wires(v.mode)[v.index as int] == old.wires(v.mode)[v.index as int]);
}

/// A wire that a circuit binds is bound by every circuit that extends it.
pub proof fn lemma_binds_extends(old: CircuitView, new: CircuitView, b: Boolean)
    requires
        new.extends(old),
        old.binds(b),
    ensures
        new.binds(b),
{
    lemma_lookup_extends(old, new, b.spec_variable());
}

/// Wires that a circuit binds are bound by every circuit that extends it.
pub proof fn lemma_binds_all_extends(old: CircuitView, new: CircuitView, wires: Seq<Boolean>)
    requires
        new.extends(old),
        old.binds_all(wires),
    ensures
        new.binds_all(wires),
{
    assert forall|i: int| 0 <= i < wires.len() implies new.binds(#[trigger] wires[i]) by {
        lemma_binds_extends(old, new, wires[i]);
    }
}

/// A relation that a circuit meets is met by every circuit that extends it.
pub proof fn lemma_holds_extends(old: CircuitView, new: CircuitView, c: Constraint)
    requires
        new.extends(old),
        old.holds(c),
    ensures
        new.holds(c),
{
    match c {
        Constraint::Sum { a, b, c, sum, carry } => {
            lemma_lookup_extends(old, new, a);
            lemma_lookup_extends(old, new, b);
            lemma_lookup_extends(old, new, c);
            lemma_lookup_extends(old, new, sum);
            lemma_lookup_extends(old, new, carry);
        },
        Constraint::Product { a, b, out } => {
            lemma_lookup_extends(old, new, a);
            lemma_lookup_extends(old, new, b);
            lemma_lookup_extends(old, new, out);
        },
        Constraint::Select { condition, when_true, when_false, out } => {
            lemma_lookup_extends(old, new, condition);
            lemma_lookup_extends(old, new, when_true);
            lemma_lookup_extends(old, new, when_false);
            lemma_lookup_extends(old, new, out);
        },
    }
}

/// A satisfied circuit stays satisfied where the relations that are added to
/// it are met.
pub proof fn lemma_satisfied_extends(old: CircuitView, new: CircuitView)
    requires
        new.extends(old),
        old.satisfied(),
        forall|i: int|
            old.constraints.len() <= i < new.constraints.len() ==> new.holds(
                #[trigger] new.constraints[i],
            ),
    ensures
        new.satisfied(),
{
    assert forall|i: int| 0 <= i < new.constraints.len() implies new.holds(
        #[trigger] new.constraints[i],
    ) by {
        if i < old.constraints.len() {
            assert(new.constraints[i] == old.constraints[i]);
            assert(old.holds(old.constraints[i]));
            lemma_holds_extends(old, new, old.constraints[i]);
        }
    }
}

/// Everything that a circuit binds is bound by a circuit that extends it,
/// and it stays satisfied where the circuit that extends it is.
pub proof fn lemma_keep(
    old: CircuitView,
    new: CircuitView,
    first: Seq<Boolean>,
    second: Seq<Boolean>,
    third: Seq<Boolean>,
    x: Boolean,
    y: Boolean,
)
    requires
        new.extends(old),
    ensures
        old.binds_all(first) ==> new.binds_all(first),
        old.binds_all(second) ==> new.binds_all(second),
        old.binds_all(third) ==> new.binds_all(third),
        old.binds(x) ==> new.binds(x),
        old.binds(y) ==> new.binds(y),
{
    if old.binds_all(first) {
        lemma_binds_all_extends(old, new, first);
    }
    if old.binds_all(second) {
        lemma_binds_all_extends(old, new, second);
    }
    if old.binds_all(third) {
        lemma_binds_all_extends(old, new, third);
    }
    if old.binds(x) {
        lemma_binds_extends(old, new, x);
    }
    if old.binds(y) {
        lemma_binds_extends(old, new, y);
    }
}

/// A relation that is met determines what its output wires read from what
/// its input wires read: a sum its sum and carry, a product its product, a
/// choice the chosen wire.
pub proof fn lemma_relation_forces(cs: CircuitView, constraint: Constraint)
    requires
        cs.holds(constraint),
    ensures
        constraint matches Constraint::Sum { a, b, c, sum, carry } ==> {
            let x = cs.lookup(a)->Some_0;
            let y = cs.lookup(b)->Some_0;
            let z = cs.lookup(c)->Some_0;
            &&& cs.lookup(sum) == Some((x != y) != z)
            &&& cs.lookup(carry) == Some((x && y) || (z && (x != y)))
        },
        constraint matches Constraint::Product { a, b, out } ==> cs.lookup(out) == Some(
            cs.lookup(a)->Some_0 && cs.lookup(b)->Some_0,
        ),
        constraint matches Constraint::Select { condition, when_true, when_false, out }
            ==> cs.lookup(out) == if cs.lookup(condition)->Some_0 {
            cs.lookup(when_true)
        } else {
            cs.lookup(when_false)
        },
{
}

/// A wire that a gate made from wires that were there before stays so in
/// every circuit that extends the circuit.
#[verifier::rlimit(40)]
pub proof fn lemma_forced_extends(old: CircuitView, new: CircuitView, mode: Mode, i: int, k: int)
    requires
        new.extends(old),
        old.forced_by(mode, i, k),
    ensures
        new.forced_by(mode, i, k),
{
    assert(new.constraints[k] == old.constraints[k]);
    assert forall|v: Variable| old.before(v, k) implies new.before(v, k) by {
        if v.mode != Mode::Constant {
            assert(new.origins(v.mode)[v.index as int] == old.origins(v.mode)[v.index as int]);
        }
    }
}

/// A circuit in which every wire has its origin stays so when it is
/// extended by wires that have theirs.
#[verifier::rlimit(40)]
pub proof fn lemma_determined_extends(old: CircuitView, new: CircuitView)
    requires
        old.determined(),
        new.extends(old),
        new.public_origin.len() == new.public.len(),
        new.private_origin.len() == new.private.len(),
        forall|mode: Mode, i: int|
            #![trigger new.origins(mode)[i]]
            mode != Mode::Constant && old.wires(mode).len() <= i < new.wires(mode).len()
                && new.origins(mode)[i] is Some ==> new.forced_by(
                mode,
                i,
                new.origins(mode)[i]->Some_0,
            ),
    ensures
        new.determined(),
{
    assert forall|mode: Mode, i: int|
        #![trigger new.origins(mode)[i]]
        mode != Mode::Constant && 0 <= i < new.wires(mode).len() && new.origins(mode)[i]
            is Some implies new.forced_by(mode, i, new.origins(mode)[i]->Some_0) by {
        if i < old.wires(mode).len() {
            assert(new.origins(mode)[i] == old.origins(mode)[i]);
            lemma_forced_extends(old, new, mode, i, old.origins(mode)[i]->Some_0);
        }
    }
}

/// Whether every wire has its origin does not depend on the assignment.
#[verifier::rlimit(40)]
pub proof fn lemma_same_circuit_determined(cs: CircuitView, other: CircuitView)
    requires
        cs.same_circuit(other),
        cs.determined(),
    ensures
        other.determined(),
{
    assert forall|v: Variable, k: int| cs.before(v, k) implies other.before(v, k) by {
        assert(other.wires(v.mode).len() == cs.wires(v.mode).len());
        assert(other.origins(v.mode) == cs.origins(v.mode));
    }
    assert forall|mode: Mode, i: int|
        #![trigger other.origins(mode)[i]]
        mode != Mode::Constant && 0 <= i < other.wires(mode).len() && other.origins(mode)[i]
            is Some implies other.forced_by(mode, i, other.origins(mode)[i]->Some_0) by {
        assert(other.origins(mode) == cs.origins(mode));
        assert(other.wires(mode).len() == cs.wires(mode).len());
        let k = cs.origins(mode)[i]->Some_0;
        assert(cs.forced_by(mode, i, k));
        assert(other.constraints[k] == cs.constraints[k]);
    }
}

/// A wire that a circuit binds was there before every relation that is yet
/// to be added.
pub proof fn lemma_bound_before(cs: CircuitView, b: Boolean, k: int)
    requires
        cs.determined(),
        cs.binds(b),
        cs.constraints.len() <= k,
    ensures
        cs.before(b.spec_variable(), k),
{
    let v = b.spec_variable();
    if v.mode != Mode::Constant {
        let origin = cs.origins(v.mode)[v.index as int];
        if origin is Some {
            assert(cs.forced_by(v.mode, v.index as int, origin->Some_0));
        }
    }
}

/// Two satisfying assignments of one circuit that agree on its freely
/// allocated wires agree on every wire that a gate made by a relation before
/// position `k`.
#[verifier::rlimit(40)]
pub proof fn lemma_agree(cs: CircuitView, other: CircuitView, k: int)
    requires
        cs.sound(),
        other.satisfied(),
        cs.same_circuit(other),
        cs.agree_free(other),
        0 <= k,
    ensures
        forall|mode: Mode, i: int|
            #![trigger cs.origins(mode)[i]]
            mode != Mode::Constant && 0 <= i < cs.wires(mode).len() && cs.origins(mode)[i]
                is Some && cs.origins(mode)[i]->Some_0 < k ==> cs.wires(mode)[i] == other.wires(
                mode,
            )[i],
    decreases k,
{
    if k > 0 {
        lemma_agree(cs, other, k - 1);
        assert forall|mode: Mode, i: int|
            #![trigger cs.origins(mode)[i]]
            mode != Mode::Constant && 0 <= i < cs.wires(mode).len() && cs.origins(mode)[i]
                is Some && cs.origins(mode)[i]->Some_0 < k implies cs.wires(mode)[i]
            == other.wires(mode)[i] by {
            let j = cs.origins(mode)[i]->Some_0;
            if j == k - 1 {
                assert(cs.forced_by(mode, i, j));
                let relation = cs.constraints[j];
                assert(cs.holds(relation));
                assert(other.constraints[j] == relation);
                assert(other.holds(other.constraints[j]));
                assert forall|v: Variable| cs.before(v, j) implies cs.lookup(v) == other.lookup(
                    v,
                ) by {
                    if v.mode != Mode::Constant {
                        let origin = cs.origins(v.mode)[v.index as int];
                        if origin is Some {
                            assert(origin->Some_0 < k - 1);
                        }
                        assert(cs.wires(v.mode)[v.index as int] == other.wires(v.mode)[v.index as int]);
                    }
                }
                lemma_relation_forces(cs, relation);
                lemma_relation_forces(other, relation);
                let wire = Variable { mode, index: i as usize, inverted: false };
                assert(cs.lookup(wire) == other.lookup(wire));
            }
        }
    }
}

/// The witness is the only assignment that satisfies the circuit without
/// changing a freely allocated wire: a satisfying assignment of the same
/// circuit that agrees with a sound one on the freely allocated wires agrees
/// with it on every wire.
#[verifier::rlimit(40)]
pub proof fn lemma_unique_witness(cs: CircuitView, other: CircuitView)
    requires
        cs.sound(),
        other.satisfied(),
        cs.same_circuit(other),
        cs.agree_free(other),
    ensures
        other.public == cs.public,
        other.private == cs.private,
        other == cs,
        forall|b: Boolean| cs.binds(b) ==> #[trigger] other.binds(b),
{
    lemma_agree(cs, other, cs.constraints.len() as int);
    assert forall|mode: Mode, i: int|
        mode != Mode::Constant && 0 <= i < cs.wires(mode).len() implies cs.wires(mode)[i]
        == other.wires(mode)[i] by {
        let origin = cs.origins(mode)[i];
        if origin is Some {
            assert(cs.forced_by(mode, i, origin->Some_0));
        }
    }
    assert(other.public =~= cs.public) by {
        assert forall|i: int| 0 <= i < cs.public.len() implies other.public[i] == cs.public[i] by {
            assert(cs.wires(Mode::Public)[i] == other.wires(Mode::Public)[i]);
        }
    }
    assert(other.private =~= cs.private) by {
        assert forall|i: int| 0 <= i < cs.private.len() implies other.private[i]
            == cs.private[i] by {
            assert(cs.wires(Mode::Private)[i] == other.wires(Mode::Private)[i]);
        }
    }
}

/// A wire and its negation are bound together.
pub proof fn lemma_binds_not(cs: CircuitView, b: Boolean)
    ensures
        cs.binds(b.spec_not()) == cs.binds(b),
{
}

/// One for a set bit and zero for a clear one, as an integer.
pub open spec fn count_true(b: bool) -> int {
    if b {
        1
    } else {
        0
    }
}

/// The builder that gadgets allocate wires in and enforce relations on.
pub struct Circuit {
    constants: Vec<bool>,
    public: Vec<bool>,
    private: Vec<bool>,
    constraints: Vec<Constraint>,
    public_origin: Ghost<Seq<Option<int>>>,
    private_origin: Ghost<Seq<Option<int>>>,
}

impl View for Circuit {
    type V = CircuitView;

    closed spec fn view(&self) -> CircuitView {
        CircuitView {
            constants: self.constants@,
            public: self.public@,
            private: self.private@,
            constraints: self.constraints@,
            public_origin: self.public_origin@,
            private_origin: self.private_origin@,
        }
    }
}

impl Circuit {
    /// A circuit without wires or relations.
    pub fn new() -> (circuit: Circuit)
        ensures
            circuit@ == CircuitView::empty(),
            circuit@.sound(),
    {
        Circuit {
            constants: Vec::new(),
            public: Vec::new(),
            private: Vec::new(),
            constraints: Vec::new(),
            public_origin: Ghost(Seq::empty()),
            private_origin: Ghost(Seq::empty()),
        }
    }

    /// Allocates a wire of the given mode holding `value`. A public or
    /// private wire comes with the relation that keeps it boolean; a constant
    /// needs none.
    #[verifier::rlimit(40)]
    pub fn allocate(&mut self, mode: Mode, value: bool) -> (wire: Boolean)
        ensures
            wire.value == value,
            wire.mode == mode,
            !wire.inverted,
            wire.index == old(self)@.wires(mode).len(),
            final(self)@ == old(self)@.allocate(mode, value),
            final(self)@.tally() == old(self)@.tally().plus(wire_cost(mode)),
            final(self)@.extends(old(self)@),
            final(self)@.binds(wire),
            old(self)@.satisfied() ==> final(self)@.satisfied(),
            old(self)@.sound() ==> final(self)@.sound(),
    {
        proof {
            if old(self)@.determined() {
                lemma_determined_extends(old(self)@, old(self)@.allocate(mode, value));
            }
        }
        self.grow(mode, value, Ghost(None))
    }

    /// Allocates a wire of the given mode and origin holding `value`.
    #[verifier::rlimit(40)]
    fn grow(&mut self, mode: Mode, value: bool, origin: Ghost<Option<int>>) -> (wire: Boolean)
        ensures
            wire.value == value,
            wire.mode == mode,
            !wire.inverted,
            wire.index == old(self)@.wires(mode).len(),
            final(self)@ == old(self)@.grow(mode, value, origin@),
            final(self)@.tally() == old(self)@.tally().plus(wire_cost(mode)),
            final(self)@.extends(old(self)@),
            final(self)@.binds(wire),
            old(self)@.satisfied() ==> final(self)@.satisfied(),
    {
        proof {
            let before = old(self)@;
            let after = before.grow(mode, value, origin@);
            if before.satisfied() {
                lemma_satisfied_extends(before, after);
            }
        }
        match mode {
            Mode::Constant => {
                let index: usize = self.constants.len();
                self.constants.push(value);
                Boolean { value, mode, index, inverted: false }
            },
            Mode::Public => {
                let index: usize = self.public.len();
                let variable = Variable { mode, index, inverted: false };
                self.public.push(value);
                self.public_origin = Ghost(self.public_origin@.push(origin@));
                self.constraints.push(Constraint::Product { a: variable, b: variable, out: variable });
                Boolean { value, mode, index, inverted: false }
            },
            Mode::Private => {
                let index: usize = self.private.len();
                let variable = Variable { mode, index, inverted: false };
                self.private.push(value);
                self.private_origin = Ghost(self.private_origin@.push(origin@));
                self.constraints.push(Constraint::Product { a: variable, b: variable, out: variable });
                Boolean { value, mode, index, inverted: false }
            },
        }
    }

    /// Enforces a relation between wires.
    #[verifier::rlimit(40)]
    pub fn enforce(&mut self, constraint: Constraint)
        ensures
            final(self)@ == old(self)@.enforce(constraint),
            final(self)@.tally() == old(self)@.tally().plus(
                Tally { constants: 0, public_variables: 0, private_variables: 0, constraints: 1 },
            ),
            final(self)@.extends(old(self)@),
            old(self)@.satisfied() && old(self)@.holds(constraint) ==> final(self)@.satisfied(),
            old(self)@.sound() && old(self)@.holds(constraint) ==> final(self)@.sound(),
    {
        proof {
            let before = old(self)@;
            let after = before.enforce(constraint);
            if before.satisfied() && before.holds(constraint) {
                lemma_holds_extends(before, after, constraint);
                lemma_satisfied_extends(before, after);
            }
            if before.determined() {
                lemma_determined_extends(before, after);
            }
        }
        self.constraints.push(constraint);
    }

    /// The value that a variable reads in the current assignment.
    pub fn value_of(&self, variable: Variable) -> (value: Option<bool>)
        ensures
            value == self@.lookup(variable),
    {
        match variable.mode {
            Mode::Constant => {
                if variable.index < self.constants.len() {
                    Some(self.constants[variable.index] != variable.inverted)
                } else {
                    None
                }
            },
            Mode::Public => {
                if variable.index < self.public.len() {
                    Some(self.public[variable.index] != variable.inverted)
                } else {
                    None
                }
            },
            Mode::Private => {
                if variable.index < self.private.len() {
                    Some(self.private[variable.index] != variable.inverted)
                } else {
                    None
                }
            },
        }
    }

    /// Replaces the assigned value of a witness wire, so that `variable` reads
    /// `value`. Returns whether the wire exists and is a witness; a constant is
    /// never changed.
    #[verifier::rlimit(40)]
    pub fn assign(&mut self, variable: Variable, value: bool) -> (changed: bool)
        ensures
            changed == (variable.mode != Mode::Constant && variable.index < old(self)@.wires(
                variable.mode,
            ).len()),
            changed ==> final(self)@ == old(self)@.assign(
                variable.mode,
                variable.index as int,
                value != variable.inverted,
            ),
            !changed ==> final(self)@ == old(self)@,
            old(self)@.determined() ==> final(self)@.determined(),
            final(self)@.same_circuit(old(self)@),
    {
        proof {
            let before = old(self)@;
            let after = before.assign(
                variable.mode,
                variable.index as int,
                value != variable.inverted,
            );
            if variable.index < before.wires(variable.mode).len() {
                assert(before.same_circuit(after));
                if before.determined() {
                    lemma_same_circuit_determined(before, after);
                }
            }
        }
        match variable.mode {
            Mode::Constant => false,
            Mode::Public => {
                if variable.index < self.public.len() {
                    self.public.set(variable.index, value != variable.inverted);
                    true
                } else {
                    false
                }
            },
            Mode::Private => {
                if variable.index < self.private.len() {
                    self.private.set(variable.index, value != variable.inverted);
                    true
                } else {
                    false
                }
            },
        }
    }

    /// Whether the current assignment meets one relation.
    pub fn check(&self, constraint: &Constraint) -> (met: bool)
        ensures
            met == self@.holds(*constraint),
    {
        match *constraint {
            Constraint::Sum { a, b, c, sum, carry } => {
                match (
                    self.value_of(a),
                    self.value_of(b),
                    self.value_of(c),
                    self.value_of(sum),
                    self.value_of(carry),
                ) {
                    (Some(va), Some(vb), Some(vc), Some(vs), Some(vr)) => {
                        let left: u8 = ones(va) + ones(vb) + ones(vc);
                        let right: u8 = ones(vs) + 2 * ones(vr);
                        left == right
                    },
                    _ => false,
                }
            },
            Constraint::Product { a, b, out } => {
                match (self.value_of(a), self.value_of(b), self.value_of(out)) {
                    (Some(va), Some(vb), Some(vo)) => (va && vb) == vo,
                    _ => false,
                }
            },
            Constraint::Select { condition, when_true, when_false, out } => {
                match (
                    self.value_of(condition),
                    self.value_of(when_true),
                    self.value_of(when_false),
                    self.value_of(out),
                ) {
                    (Some(vc), Some(vt), Some(vf), Some(vo)) => vo == if vc {
                        vt
                    } else {
                        vf
                    },
                    _ => false,
                }
            },
        }
    }

    /// Whether the current assignment meets every relation.
    pub fn is_satisfied(&self) -> (satisfied: bool)
        ensures
            satisfied == self@.satisfied(),
    {
        let mut i: usize = 0;
        while i < self.constraints.len()
            invariant
                i <= self.constraints.len(),
                forall|j: int| 0 <= j < i ==> self@.holds(#[trigger] self@.constraints[j]),
            decreases self.constraints.len() - i,
        {
            if !self.check(&self.constraints[i]) {
                assert(!self@.holds(self@.constraints[i as int]));
                return false;
            }
            i = i + 1;
        }
        true
    }

    /// The relations of the circuit, in the order in which they were
    /// enforced.
    pub fn constraints(&self) -> (constraints: &Vec<Constraint>)
        ensures
            constraints@ == self@.constraints,
    {
        &self.constraints
    }

    /// The values assigned to the wires of one mode, in the order of their
    /// allocation.
    pub fn assignment(&self, mode: Mode) -> (wires: &Vec<bool>)
        ensures
            wires@ == self@.wires(mode),
    {
        match mode {
            Mode::Constant => &self.constants,
            Mode::Public => &self.public,
            Mode::Private => &self.private,
        }
    }

    /// The resources that the circuit holds.
    pub fn count(&self) -> (count: CircuitCount)
        ensures
            count@ == self@.tally(),
    {
        CircuitCount {
            constants: self.constants.len() as u64,
            public_variables: self.public.len() as u64,
            private_variables: self.private.len() as u64,
            constraints: self.constraints.len() as u64,
        }
    }

    /// Adds three wires: allocates the sum bit in `mode` and the carry bit as
    /// a private wire, and enforces `a + b + c == sum + 2 * carry`.
    #[verifier::rlimit(40)]
    pub fn full_adder(&mut self, a: Boolean, b: Boolean, c: Boolean, mode: Mode) -> (out: (
        Boolean,
        Boolean,
    ))
        ensures
            count_true(a.value) + count_true(b.value) + count_true(c.value) == count_true(
                out.0.value,
            ) + 2 * count_true(out.1.value),
            out.0.mode == mode,
            out.1.mode == Mode::Private,
            !out.0.inverted,
            !out.1.inverted,
            final(self)@ == old(self)@.grow(
                mode,
                out.0.value,
                Some(old(self)@.gate_position(mode, 1)),
            ).grow(Mode::Private, out.1.value, Some(old(self)@.gate_position(mode, 1))).enforce(
                Constraint::Sum {
                    a: a.variable(),
                    b: b.variable(),
                    c: c.variable(),
                    sum: out.0.variable(),
                    carry: out.1.variable(),
                },
            ),
            final(self)@.tally() == old(self)@.tally().plus(full_adder_cost(mode)),
            final(self)@.extends(old(self)@),
            final(self)@.binds(out.0),
            final(self)@.binds(out.1),
            old(self)@.satisfied() && old(self)@.binds(a) && old(self)@.binds(b) && old(self)@.binds(c) ==> final(self)@.satisfied(),
            old(self)@.sound() && old(self)@.binds(a) && old(self)@.binds(b) && old(self)@.binds(c) ==> final(self)@.sound(),
    {
        let sum_value = (a.value != b.value) != c.value;
        let carry_value = (a.value && b.value) || (c.value && (a.value != b.value));
        let ghost first = self@;
        let ghost position = first.gate_position(mode, 1);
        let sum = self.grow(mode, sum_value, Ghost(Some(position)));
        let ghost middle = self@;
        let carry = self.grow(Mode::Private, carry_value, Ghost(Some(position)));
        let ghost last = self@;
        proof {
            lemma_binds_extends(middle, last, sum);
            if first.binds(a) && first.binds(b) && first.binds(c) {
                lemma_binds_extends(first, last, a);
                lemma_binds_extends(first, last, b);
                lemma_binds_extends(first, last, c);
            }
        }
        self.enforce(
            Constraint::Sum {
                a: a.variable(),
                b: b.variable(),
                c: c.variable(),
                sum: sum.variable(),
                carry: carry.variable(),
            },
        );
        proof {
            lemma_binds_extends(last, self@, sum);
            lemma_binds_extends(last, self@, carry);
            if first.determined() && first.binds(a) && first.binds(b) && first.binds(c) {
                let after = self@;
                lemma_bound_before(first, a, position);
                lemma_bound_before(first, b, position);
                lemma_bound_before(first, c, position);
                assert(after.constraints[position] == Constraint::Sum {
                    a: a.spec_variable(),
                    b: b.spec_variable(),
                    c: c.spec_variable(),
                    sum: sum.spec_variable(),
                    carry: carry.spec_variable(),
                });
                assert forall|v: Variable| first.before(v, position) implies after.before(
                    v,
                    position,
                ) by {
                    if v.mode != Mode::Constant {
                        assert(after.origins(v.mode)[v.index as int] == first.origins(v.mode)[v.index as int]);
                    }
                }
                lemma_determined_extends(first, after);
            }
        }
        (sum, carry)
    }

    /// Multiplies two wires: allocates `a && b` in `mode` and enforces the
    /// product.
    #[verifier::rlimit(40)]
    pub fn and(&mut self, a: Boolean, b: Boolean, mode: Mode) -> (out: Boolean)
        ensures
            out.value == (a.value && b.value),
            out.mode == mode,
            !out.inverted,
            final(self)@ == old(self)@.grow(
                mode,
                out.value,
                Some(old(self)@.gate_position(mode, 0)),
            ).enforce(
                Constraint::Product { a: a.variable(), b: b.variable(), out: out.variable() },
            ),
            final(self)@.tally() == old(self)@.tally().plus(gate_cost(mode)),
            final(self)@.extends(old(self)@),
            final(self)@.binds(out),
            old(self)@.satisfied() && old(self)@.binds(a) && old(self)@.binds(b) ==> final(self)@.satisfied(),
            old(self)@.sound() && old(self)@.binds(a) && old(self)@.binds(b) ==> final(self)@.sound(),
    {
        let ghost first = self@;
        let ghost position = first.gate_position(mode, 0);
        let out = self.grow(mode, a.value && b.value, Ghost(Some(position)));
        let ghost last = self@;
        proof {
            if first.binds(a) && first.binds(b) {
                lemma_binds_extends(first, last, a);
                lemma_binds_extends(first, last, b);
            }
        }
        self.enforce(Constraint::Product { a: a.variable(), b: b.variable(), out: out.variable() });
        proof {
            lemma_binds_extends(last, self@, out);
            if first.determined() && first.binds(a) && first.binds(b) {
                let after = self@;
                lemma_bound_before(first, a, position);
                lemma_bound_before(first, b, position);
                assert(after.constraints[position] == Constraint::Product {
                    a: a.spec_variable(),
                    b: b.spec_variable(),
                    out: out.spec_variable(),
                });
                assert forall|v: Variable| first.before(v, position) implies after.before(
                    v,
                    position,
                ) by {
                    if v.mode != Mode::Constant {
                        assert(after.origins(v.mode)[v.index as int] == first.origins(v.mode)[v.index as int]);
                    }
                }
                lemma_determined_extends(first, after);
            }
        }
        out
    }

    /// Chooses between two wires: allocates the chosen value in `mode` and
    /// enforces the choice.
    #[verifier::rlimit(40)]
    pub fn select(
        &mut self,
        condition: Boolean,
        when_true: Boolean,
        when_false: Boolean,
        mode: Mode,
    ) -> (out: Boolean)
        ensures
            out.value == if condition.value {
                when_true.value
            } else {
                when_false.value
            },
            out.mode == mode,
            !out.inverted,
            final(self)@ == old(self)@.grow(
                mode,
                out.value,
                Some(old(self)@.gate_position(mode, 0)),
            ).enforce(
                Constraint::Select {
                    condition: condition.variable(),
                    when_true: when_true.variable(),
                    when_false: when_false.variable(),
                    out: out.variable(),
                },
            ),
            final(self)@.tally() == old(self)@.tally().plus(gate_cost(mode)),
            final(self)@.extends(old(self)@),
            final(self)@.binds(out),
            old(self)@.satisfied() && old(self)@.binds(condition) && old(self)@.binds(when_true)
                && old(self)@.binds(when_false) ==> final(self)@.satisfied(),
            old(self)@.sound() && old(self)@.binds(condition) && old(self)@.binds(when_true)
                && old(self)@.binds(when_false) ==> final(self)@.sound(),
    {
        let value = if condition.value {
            when_true.value
        } else {
            when_false.value
        };
        let ghost first = self@;
        let ghost position = first.gate_position(mode, 0);
        let out = self.grow(mode, value, Ghost(Some(position)));
        let ghost last = self@;
        proof {
            if first.binds(condition) && first.binds(when_true) && first.binds(when_false) {
                lemma_binds_extends(first, last, condition);
                lemma_binds_extends(first, last, when_true);
                lemma_binds_extends(first, last, when_false);
            }
        }
        self.enforce(
            Constraint::Select {
                condition: condition.variable(),
                when_true: when_true.variable(),
                when_false: when_false.variable(),
                out: out.variable(),
            },
        );
        proof {
            lemma_binds_extends(last, self@, out);
            if first.determined() && first.binds(condition) && first.binds(when_true)
                && first.binds(when_false) {
                let after = self@;
                lemma_bound_before(first, condition, position);
                lemma_bound_before(first, when_true, position);
                lemma_bound_before(first, when_false, position);
                assert(after.constraints[position] == Constraint::Select {
                    condition: condition.spec_variable(),
                    when_true: when_true.spec_variable(),
                    when_false: when_false.spec_variable(),
                    out: out.spec_variable(),
                });
                assert forall|v: Variable| first.before(v, position) implies after.before(
                    v,
                    position,
                ) by {
                    if v.mode != Mode::Constant {
                        assert(after.origins(v.mode)[v.index as int] == first.origins(v.mode)[v.index as int]);
                    }
                }
                lemma_determined_extends(first, after);
            }
        }
        out
    }

    /// Enforces that two wires agree. `zero` is any wire that reads false; it
    /// fills the unused places of the relation.
    #[verifier::rlimit(40)]
    pub fn enforce_equal(&mut self, a: Boolean, b: Boolean, zero: Boolean)
        ensures
            final(self)@ == old(self)@.enforce(
                Constraint::Sum {
                    a: a.variable(),
                    b: zero.variable(),
                    c: zero.variable(),
                    sum: b.variable(),
                    carry: zero.variable(),
                },
            ),
            final(self)@.tally() == old(self)@.tally().plus(
                Tally { constants: 0, public_variables: 0, private_variables: 0, constraints: 1 },
            ),
            final(self)@.extends(old(self)@),
            old(self)@.satisfied() && old(self)@.binds(a) && old(self)@.binds(b) && old(self)@.binds(zero) && a.value == b.value && !zero.value ==> final(self)@.satisfied(),
            old(self)@.sound() && old(self)@.binds(a) && old(self)@.binds(b) && old(self)@.binds(zero) && a.value == b.value && !zero.value ==> final(self)@.sound(),
    {
        self.enforce(
            Constraint::Sum {
                a: a.variable(),
                b: zero.variable(),
                c: zero.variable(),
                sum: b.variable(),
                carry: zero.variable(),
            },
        );
    }
}

/// What a gate with one output wire of the given mode takes.
pub open spec fn gate_cost(mode: Mode) -> Tally {
    wire_cost(mode).plus(
        Tally { constants: 0, public_variables: 0, private_variables: 0, constraints: 1 },
    )
}

/// What a full adder with a sum wire of the given mode takes.
pub open spec fn full_adder_cost(mode: Mode) -> Tally {
    wire_cost(mode).plus(wire_cost(Mode::Private)).plus(
        Tally { constants: 0, public_variables: 0, private_variables: 0, constraints: 1 },
    )
}

fn ones(b: bool) -> (n: u8)
    ensures
        n == count_true(b),
{
    if b {
        1
    } else {
        0
    }
}

} // verus!
