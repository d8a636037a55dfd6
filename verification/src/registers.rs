//! Registers, operands, and the store that binds registers to values.

use crate::halt::Halt;
use crate::circuit::CircuitView;
use crate::literal::{lemma_bound_extends, Literal, LiteralView};
use vstd::prelude::*;

verus! {

/// The name of a slot of the store.
#[derive(Clone, Copy, Debug, PartialEq, Eq, Structural)]
pub struct Register {
    pub locator: u64,
}

/// An input of an operation: a register to read, or a literal given in place.
#[derive(Debug, PartialEq, Eq)]
pub enum Operand {
    Register(Register),
    Literal(Literal),
}

/// The mathematical content of an [`Operand`].
pub enum OperandView {
    Register(Register),
    Literal(LiteralView),
}

impl View for Operand {
    type V = OperandView;

    open spec fn view(&self) -> OperandView {
        match self {
            Operand::Register(r) => OperandView::Register(*r),
            Operand::Literal(l) => OperandView::Literal(l@),
        }
    }
}

impl OperandView {
    /// Whether the circuit binds every wire of a literal operand.
    pub open spec fn bound_in(self, cs: CircuitView) -> bool {
        match self {
            OperandView::Register(_) => true,
            OperandView::Literal(l) => l.bound_in(cs),
        }
    }
}

impl Operand {
    /// A copy of the operand.
    pub fn duplicate(&self) -> (copy: Operand)
        ensures
            copy@ == self@,
    {
        match self {
            Operand::Register(r) => Operand::Register(*r),
            Operand::Literal(l) => Operand::Literal(l.duplicate()),
        }
    }
}

/// What a register holds: a literal, or a named composite of literals.
#[derive(Debug, PartialEq, Eq)]
pub enum Value {
    Literal(Literal),
    Composite(Vec<u8>, Vec<Literal>),
}

/// The mathematical content of a [`Value`].
pub enum ValueView {
    Literal(LiteralView),
    Composite(Seq<u8>, Seq<LiteralView>),
}

impl View for Value {
    type V = ValueView;

    open spec fn view(&self) -> ValueView {
        match self {
            Value::Literal(l) => ValueView::Literal(l@),
            Value::Composite(name, members) => ValueView::Composite(
                name@,
                Seq::new(members@.len(), |i: int| members@[i]@),
            ),
        }
    }
}

impl ValueView {
    /// Whether the circuit binds every wire of the value.
    pub open spec fn bound_in(self, cs: CircuitView) -> bool {
        match self {
            ValueView::Literal(l) => l.bound_in(cs),
            ValueView::Composite(_, members) => forall|i: int|
                0 <= i < members.len() ==> (#[trigger] members[i]).bound_in(cs),
        }
    }
}

/// Whether the circuit binds every wire of every value of the store.
pub open spec fn bound_store(store: Map<u64, ValueView>, cs: CircuitView) -> bool {
    forall|locator: u64| store.dom().contains(locator) ==> (#[trigger] store[locator]).bound_in(cs)
}

/// A store that a circuit binds is bound by every circuit that extends it.
pub proof fn lemma_store_extends(store: Map<u64, ValueView>, old: CircuitView, new: CircuitView)
    requires
        new.extends(old),
        bound_store(store, old),
    ensures
        bound_store(store, new),
{
    assert forall|locator: u64| store.dom().contains(locator) implies (
    #[trigger] store[locator]).bound_in(new) by {
        match store[locator] {
            ValueView::Literal(l) => {
                lemma_bound_extends(l, old, new);
            },
            ValueView::Composite(_, members) => {
                assert forall|i: int| 0 <= i < members.len() implies (
                #[trigger] members[i]).bound_in(new) by {
                    lemma_bound_extends(members[i], old, new);
                }
            },
        }
    }
}

/// What an operand resolves to over a bound store is bound, where the operand
/// itself is.
pub proof fn lemma_resolve_bound(store: Map<u64, ValueView>, operand: OperandView, cs: CircuitView)
    requires
        bound_store(store, cs),
        operand.bound_in(cs),
        resolve(store, operand) is Ok,
    ensures
        resolve(store, operand)->Ok_0.bound_in(cs),
{
    match operand {
        OperandView::Register(r) => {
            assert(store[r.locator].bound_in(cs));
        },
        OperandView::Literal(_) => {},
    }
}

/// One binding of the store.
#[derive(Debug, PartialEq, Eq)]
pub struct Slot {
    pub locator: u64,
    pub value: Value,
}

/// The map that a list of bindings stands for.
pub open spec fn bindings(slots: Seq<Slot>) -> Map<u64, ValueView>
    decreases slots.len(),
{
    if slots.len() == 0 {
        Map::empty()
    } else {
        bindings(slots.drop_last()).insert(slots.last().locator, slots.last().value@)
    }
}

/// Whether no locator occurs twice.
pub open spec fn distinct(slots: Seq<Slot>) -> bool {
    forall|i: int, j: int|
        0 <= i < j < slots.len() ==> (#[trigger] slots[i]).locator != (#[trigger] slots[j]).locator
}

proof fn lemma_bound(slots: Seq<Slot>, i: int)
    requires
        distinct(slots),
        0 <= i < slots.len(),
    ensures
        bindings(slots).dom().contains(slots[i].locator),
        bindings(slots)[slots[i].locator] == slots[i].value@,
    decreases slots.len(),
{
    if i < slots.len() - 1 {
        assert(slots.drop_last()[i] == slots[i]);
        assert(distinct(slots.drop_last())) by {
            assert forall|a: int, b: int| 0 <= a < b < slots.drop_last().len() implies (
            #[trigger] slots.drop_last()[a]).locator != (#[trigger] slots.drop_last()[b]).locator by {
                assert(slots.drop_last()[a] == slots[a]);
                assert(slots.drop_last()[b] == slots[b]);
            }
        }
        lemma_bound(slots.drop_last(), i);
        assert(slots[i].locator != slots[slots.len() - 1].locator);
    }
}

proof fn lemma_unbound(slots: Seq<Slot>, locator: u64)
    requires
        forall|i: int| 0 <= i < slots.len() ==> (#[trigger] slots[i]).locator != locator,
    ensures
        !bindings(slots).dom().contains(locator),
    decreases slots.len(),
{
    if slots.len() > 0 {
        assert forall|i: int| 0 <= i < slots.drop_last().len() implies (
        #[trigger] slots.drop_last()[i]).locator != locator by {
            assert(slots.drop_last()[i] == slots[i]);
        }
        lemma_unbound(slots.drop_last(), locator);
        assert(slots.last() == slots[slots.len() - 1]);
    }
}

/// What an operand resolves to over the given bindings: the literal itself,
/// or the literal that its register holds. An unbound register halts, and so
/// does a register that holds a composite.
pub open spec fn resolve(store: Map<u64, ValueView>, operand: OperandView) -> Result<
    LiteralView,
    Halt,
> {
    match operand {
        OperandView::Literal(l) => Ok(l),
        OperandView::Register(r) => if !store.dom().contains(r.locator) {
            Err(Halt::UnboundRegister { locator: r.locator })
        } else {
            match store[r.locator] {
                ValueView::Literal(l) => Ok(l),
                ValueView::Composite(_, _) => Err(Halt::NotALiteral { locator: r.locator }),
            }
        },
    }
}

/// The store of one execution. Each register is bound at most once.
#[derive(Debug, PartialEq, Eq)]
pub struct Registers {
    slots: Vec<Slot>,
}

impl View for Registers {
    type V = Map<u64, ValueView>;

    closed spec fn view(&self) -> Map<u64, ValueView> {
        bindings(self.slots@)
    }
}

impl Registers {
    #[verifier::type_invariant]
    spec fn write_once(self) -> bool {
        distinct(self.slots@)
    }

    /// A store in which no register is bound.
    pub fn new() -> (store: Registers)
        ensures
            store@ == Map::<u64, ValueView>::empty(),
    {
        Registers { slots: Vec::new() }
    }

    fn find(&self, locator: u64) -> (found: Option<usize>)
        ensures
            found matches Some(i) ==> i < self.slots@.len() && self.slots@[i as int].locator
                == locator,
            found is None ==> forall|i: int|
                0 <= i < self.slots@.len() ==> (#[trigger] self.slots@[i]).locator != locator,
    {
        let mut i: usize = 0;
        while i < self.slots.len()
            invariant
                i <= self.slots.len(),
                forall|j: int| 0 <= j < i ==> (#[trigger] self.slots@[j]).locator != locator,
            decreases self.slots.len() - i,
        {
            if self.slots[i].locator == locator {
                return Some(i);
            }
            i = i + 1;
        }
        None
    }

    /// Whether the register is bound.
    pub fn is_assigned(&self, register: &Register) -> (assigned: bool)
        ensures
            assigned == self@.dom().contains(register.locator),
    {
        proof {
            use_type_invariant(self);
        }
        match self.find(register.locator) {
            Some(i) => {
                proof {
                    lemma_bound(self.slots@, i as int);
                }
                true
            },
            None => {
                proof {
                    lemma_unbound(self.slots@, register.locator);
                }
                false
            },
        }
    }

    /// The value that the register holds, if it is bound.
    pub fn get(&self, register: &Register) -> (out: Option<&Value>)
        ensures
            out is Some <==> self@.dom().contains(register.locator),
            out matches Some(value) ==> value@ == self@[register.locator],
    {
        proof {
            use_type_invariant(self);
        }
        match self.find(register.locator) {
            Some(i) => {
                proof {
                    lemma_bound(self.slots@, i as int);
                }
                Some(&self.slots[i].value)
            },
            None => {
                proof {
                    lemma_unbound(self.slots@, register.locator);
                }
                None
            },
        }
    }

    /// Resolves an operand to a literal: a literal operand to itself, a
    /// register to the literal bound to it.
    ///
    /// Halts on a register that is not bound and on one that holds a
    /// composite.
    pub fn load<'a>(&'a self, operand: &'a Operand) -> (out: Result<&'a Literal, Halt>)
        ensures
            out matches Ok(literal) ==> resolve(self@, operand@) == Ok::<LiteralView, Halt>(
                literal@,
            ),
            out matches Err(halt) ==> resolve(self@, operand@) == Err::<LiteralView, Halt>(halt),
    {
        match operand {
            Operand::Literal(literal) => Ok(literal),
            Operand::Register(register) => match self.get(register) {
                None => Err(Halt::UnboundRegister { locator: register.locator }),
                Some(value) => match value {
                    Value::Literal(literal) => Ok(literal),
                    Value::Composite(_, _) => Err(Halt::NotALiteral { locator: register.locator }),
                },
            },
        }
    }

    /// Binds a value to a register.
    ///
    /// Halts, leaving the store as it was, when the register is already
    /// bound.
    pub fn assign(&mut self, register: &Register, value: Value) -> (out: Result<(), Halt>)
        ensures
            out is Ok <==> !old(self)@.dom().contains(register.locator),
            out is Ok ==> final(self)@ == old(self)@.insert(register.locator, value@),
            out matches Err(halt) ==> halt == (Halt::AlreadyAssigned { locator: register.locator })
                && final(self)@ == old(self)@,
    {
        proof {
            use_type_invariant(&*self);
        }
        match self.find(register.locator) {
            Some(i) => {
                proof {
                    lemma_bound(self.slots@, i as int);
                }
                Err(Halt::AlreadyAssigned { locator: register.locator })
            },
            None => {
                proof {
                    lemma_unbound(self.slots@, register.locator);
                }
                let ghost before = self.slots@;
                let mut slots: Vec<Slot> = Vec::new();
                core::mem::swap(&mut self.slots, &mut slots);
                slots.push(Slot { locator: register.locator, value });
                proof {
                    assert(slots@.drop_last() =~= before);
                }
                core::mem::swap(&mut self.slots, &mut slots);
                Ok(())
            },
        }
    }
}

} // verus!
