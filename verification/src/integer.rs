//! Fixed-width integers made of boolean wires.
//!
//! An integer of width `n` is a sequence of exactly `n` wires, least
//! significant first, read as an unsigned or a two's complement number. When
//! every wire is a constant the native value is kept beside the wires.

use crate::bits::{
    complement, lemma_complement, lemma_signed_bound, lemma_top_bit, lemma_unsigned_bound,
    lemma_unsigned_push, lemma_weight_monotonic, lemma_weight_values, unsigned_value, value_of,
    weight,
};
use crate::circuit::{lemma_binds_all_extends, modes, values, Boolean, Circuit, Tally};
use crate::mode::{join_all, lemma_join_all_bounds, Mode};
use vstd::prelude::*;

verus! {

/// The ten integer types: signed and unsigned at 8, 16, 32, 64 and 128 bits.
#[derive(Clone, Copy, Debug, PartialEq, Eq, Structural)]
pub enum IntegerType {
    I8,
    I16,
    I32,
    I64,
    I128,
    U8,
    U16,
    U32,
    U64,
    U128,
}

impl IntegerType {
    pub open spec fn spec_is_signed(self) -> bool {
        match self {
            IntegerType::I8 | IntegerType::I16 | IntegerType::I32 | IntegerType::I64
            | IntegerType::I128 => true,
            _ => false,
        }
    }

    /// Whether values of the type are read in two's complement.
    #[verifier::when_used_as_spec(spec_is_signed)]
    pub fn is_signed(self) -> (signed: bool)
        ensures
            signed == self.spec_is_signed(),
    {
        match self {
            IntegerType::I8 | IntegerType::I16 | IntegerType::I32 | IntegerType::I64
            | IntegerType::I128 => true,
            _ => false,
        }
    }

    pub open spec fn spec_width(self) -> usize {
        match self {
            IntegerType::I8 | IntegerType::U8 => 8,
            IntegerType::I16 | IntegerType::U16 => 16,
            IntegerType::I32 | IntegerType::U32 => 32,
            IntegerType::I64 | IntegerType::U64 => 64,
            IntegerType::I128 | IntegerType::U128 => 128,
        }
    }

    /// The number of wires of a value of the type.
    #[verifier::when_used_as_spec(spec_width)]
    pub fn width(self) -> (width: usize)
        ensures
            width == self.spec_width(),
    {
        match self {
            IntegerType::I8 | IntegerType::U8 => 8,
            IntegerType::I16 | IntegerType::U16 => 16,
            IntegerType::I32 | IntegerType::U32 => 32,
            IntegerType::I64 | IntegerType::U64 => 64,
            IntegerType::I128 | IntegerType::U128 => 128,
        }
    }

    /// The least value of the type: `-2^(n-1)` if signed, zero if not.
    pub open spec fn min_value(self) -> int {
        if self.spec_is_signed() {
            -(weight((self.spec_width() - 1) as nat) as int)
        } else {
            0
        }
    }

    /// The greatest value of the type: `2^(n-1) - 1` if signed, `2^n - 1` if not.
    pub open spec fn max_value(self) -> int {
        if self.spec_is_signed() {
            weight((self.spec_width() - 1) as nat) - 1
        } else {
            weight(self.spec_width() as nat) - 1
        }
    }

    /// Whether the type can represent `value`.
    pub open spec fn contains(self, value: int) -> bool {
        self.min_value() <= value <= self.max_value()
    }

    /// The least value of a signed type, zero for an unsigned one.
    pub fn least_signed(self) -> (min: i128)
        ensures
            min == self.min_value(),
    {
        proof {
            lemma_weight_values();
        }
        match self {
            IntegerType::I8 => -0x80,
            IntegerType::I16 => -0x8000,
            IntegerType::I32 => -0x8000_0000,
            IntegerType::I64 => -0x8000_0000_0000_0000,
            IntegerType::I128 => i128::MIN,
            _ => 0,
        }
    }

    /// The greatest value of a signed type, zero for an unsigned one.
    pub fn greatest_signed(self) -> (max: i128)
        ensures
            self.spec_is_signed() ==> max == self.max_value(),
            !self.spec_is_signed() ==> max == 0,
    {
        proof {
            lemma_weight_values();
        }
        match self {
            IntegerType::I8 => 0x7f,
            IntegerType::I16 => 0x7fff,
            IntegerType::I32 => 0x7fff_ffff,
            IntegerType::I64 => 0x7fff_ffff_ffff_ffff,
            IntegerType::I128 => i128::MAX,
            _ => 0,
        }
    }

    /// The greatest value of an unsigned type, zero for a signed one.
    pub fn greatest_unsigned(self) -> (max: u128)
        ensures
            !self.spec_is_signed() ==> max == self.max_value(),
            self.spec_is_signed() ==> max == 0,
    {
        proof {
            lemma_weight_values();
        }
        match self {
            IntegerType::U8 => 0xff,
            IntegerType::U16 => 0xffff,
            IntegerType::U32 => 0xffff_ffff,
            IntegerType::U64 => 0xffff_ffff_ffff_ffff,
            IntegerType::U128 => u128::MAX,
            _ => 0,
        }
    }
}

/// A machine integer wide enough for every type: signed types use the first
/// variant, unsigned types the second.
#[derive(Clone, Copy, Debug, PartialEq, Eq, Structural)]
pub enum Native {
    Signed(i128),
    Unsigned(u128),
}

impl Native {
    /// The number that the machine integer holds.
    pub open spec fn as_int(self) -> int {
        match self {
            Native::Signed(v) => v as int,
            Native::Unsigned(v) => v as int,
        }
    }

    pub open spec fn spec_fits(self, ty: IntegerType) -> bool {
        &&& (self is Signed) == ty.spec_is_signed()
        &&& ty.contains(self.as_int())
    }

    /// Whether the machine integer has the signedness of `ty` and lies in its
    /// range.
    #[verifier::when_used_as_spec(spec_fits)]
    pub fn fits(self, ty: IntegerType) -> (fits: bool)
        ensures
            fits == self.spec_fits(ty),
    {
        match self {
            Native::Signed(v) => ty.is_signed() && ty.least_signed() <= v && v <= ty.greatest_signed(),
            Native::Unsigned(v) => !ty.is_signed() && v <= ty.greatest_unsigned(),
        }
    }
}

/// The machine integer that holds `value` in the type `ty`.
pub open spec fn native_of(ty: IntegerType, value: int) -> Native {
    if ty.spec_is_signed() {
        Native::Signed(value as i128)
    } else {
        Native::Unsigned(value as u128)
    }
}

/// What allocating `n` wires of one mode takes.
pub open spec fn wires_cost(mode: Mode, n: nat) -> Tally {
    match mode {
        Mode::Constant => Tally {
            constants: n,
            public_variables: 0,
            private_variables: 0,
            constraints: 0,
        },
        Mode::Public => Tally {
            constants: 0,
            public_variables: n,
            private_variables: 0,
            constraints: n,
        },
        Mode::Private => Tally {
            constants: 0,
            public_variables: 0,
            private_variables: n,
            constraints: n,
        },
    }
}

/// The mathematical content of an [`Integer`]: its type and its wires, least
/// significant first.
pub struct IntegerView {
    pub ty: IntegerType,
    pub wires: Seq<Boolean>,
}

impl IntegerView {
    /// An integer has exactly as many wires as its type is wide.
    pub open spec fn wf(self) -> bool {
        self.wires.len() == self.ty.spec_width()
    }

    /// The number that the wires stand for under the type's signedness.
    pub open spec fn value(self) -> int {
        value_of(values(self.wires), self.ty.spec_is_signed())
    }

    /// The join of the modes of all wires.
    pub open spec fn mode(self) -> Mode {
        join_all(modes(self.wires))
    }

    /// Whether every wire is a constant.
    pub open spec fn is_constant(self) -> bool {
        forall|i: int| 0 <= i < self.wires.len() ==> (#[trigger] self.wires[i]).mode == Mode::Constant
    }

    /// Whether every wire has the given mode and is read as allocated.
    pub open spec fn uniform(self, mode: Mode) -> bool {
        forall|i: int|
            0 <= i < self.wires.len() ==> (#[trigger] self.wires[i]).mode == mode
                && !self.wires[i].inverted
    }

    /// The native value kept beside the wires: present exactly when every
    /// wire is a constant.
    pub open spec fn cached(self) -> Option<Native> {
        if self.is_constant() {
            Some(native_of(self.ty, self.value()))
        } else {
            None
        }
    }

    /// The wires, most significant first.
    pub open spec fn wires_be(self) -> Seq<Boolean> {
        self.wires.reverse()
    }

    /// The number of bytes of the integer.
    pub open spec fn byte_count(self) -> int {
        (self.ty.spec_width() as int) / 8
    }

    /// The byte at position `k`, counted from the least significant: the
    /// eight wires from `8 * k` on, as an unsigned 8-bit integer.
    pub open spec fn byte(self, k: int) -> IntegerView {
        IntegerView { ty: IntegerType::U8, wires: self.wires.subrange(8 * k, 8 * k + 8) }
    }

    /// The bytes, least significant first.
    pub open spec fn bytes_le(self) -> Seq<IntegerView> {
        Seq::new(self.byte_count() as nat, |k: int| self.byte(k))
    }

    /// The bytes, most significant first.
    pub open spec fn bytes_be(self) -> Seq<IntegerView> {
        self.bytes_le().reverse()
    }
}

/// The wires of a sequence of bytes, least significant byte first.
pub open spec fn joined(bytes: Seq<IntegerView>) -> Seq<Boolean> {
    Seq::new(8 * bytes.len(), |i: int| bytes[i / 8].wires[i % 8])
}

/// Whether every integer of the sequence is an unsigned 8-bit integer.
pub open spec fn all_bytes(bytes: Seq<IntegerView>) -> bool {
    forall|k: int| 0 <= k < bytes.len() ==> (#[trigger] bytes[k]).ty == IntegerType::U8
}

/// Building an integer from its wires gives the integer back, in either
/// order, and the two orders are the reverse of each other.
pub proof fn lemma_bits_round_trip(x: IntegerView)
    ensures
        (IntegerView { ty: x.ty, wires: x.wires_be().reverse() }) == x,
        x.wires_be().reverse() == x.wires,
        x.wires_be() == x.wires.reverse(),
        x.wires_be().len() == x.wires.len(),
{
    assert(x.wires.reverse().reverse() =~= x.wires);
}

/// Joining the bytes of an integer gives its wires back, in either order,
/// and the two orders are the reverse of each other.
pub proof fn lemma_bytes_round_trip(x: IntegerView)
    requires
        x.wf(),
    ensures
        all_bytes(x.bytes_le()),
        x.bytes_le().len() == x.byte_count(),
        joined(x.bytes_le()) == x.wires,
        joined(x.bytes_be().reverse()) == x.wires,
        x.bytes_be().reverse() == x.bytes_le(),
{
    assert(joined(x.bytes_le()) =~= x.wires);
    assert(x.bytes_le().reverse().reverse() =~= x.bytes_le());
}

/// Two integers of one type over wires of the same values stand for the same
/// number.
pub proof fn lemma_same_wires_same_value(x: IntegerView, y: IntegerView)
    requires
        x.ty == y.ty,
        values(x.wires) == values(y.wires),
    ensures
        x.value() == y.value(),
{
}

/// The value of an integer lies in the range of its type.
pub proof fn lemma_value_in_range(x: IntegerView)
    requires
        x.wf(),
    ensures
        x.ty.contains(x.value()),
{
    let bits = values(x.wires);
    if x.ty.spec_is_signed() {
        lemma_signed_bound(bits);
    } else {
        lemma_unsigned_bound(bits);
    }
}

/// The mode of an integer is `Constant` exactly when every wire is.
pub proof fn lemma_constant_mode(x: IntegerView)
    ensures
        x.mode() == Mode::Constant <==> x.is_constant(),
{
    lemma_join_all_bounds(modes(x.wires));
    if x.is_constant() {
        assert forall|i: int| 0 <= i < modes(x.wires).len() implies modes(x.wires)[i]
            == Mode::Constant by {
            assert(x.wires[i].mode == Mode::Constant);
        }
    }
    if x.mode() == Mode::Constant {
        assert forall|i: int| 0 <= i < x.wires.len() implies (#[trigger] x.wires[i]).mode
            == Mode::Constant by {
            assert(modes(x.wires)[i] == Mode::Constant);
        }
    }
}

/// A uniform integer has the mode of its wires.
pub proof fn lemma_uniform_mode(x: IntegerView, mode: Mode)
    requires
        x.uniform(mode),
        x.wires.len() > 0,
    ensures
        x.mode() == mode,
        x.is_constant() <==> mode == Mode::Constant,
{
    lemma_join_all_bounds(modes(x.wires));
    lemma_uniform_join(modes(x.wires), mode);
    assert(x.wires[0].mode == mode);
}

proof fn lemma_uniform_join(modes: Seq<Mode>, mode: Mode)
    requires
        forall|i: int| 0 <= i < modes.len() ==> modes[i] == mode,
        modes.len() > 0,
    ensures
        join_all(modes) == mode,
    decreases modes.len(),
{
    assert(modes.last() == mode);
    if modes.len() > 1 {
        assert forall|i: int| 0 <= i < modes.drop_last().len() implies modes.drop_last()[i]
            == mode by {
            assert(modes.drop_last()[i] == modes[i]);
        }
        lemma_uniform_join(modes.drop_last(), mode);
    } else {
        assert(modes.drop_last().len() == 0);
        assert(join_all(modes.drop_last()) == Mode::Constant);
    }
}

proof fn lemma_peel(rest: nat, w: nat)
    ensures
        rest * w == (rest / 2) * (2 * w) + if rest % 2 == 1 {
            w
        } else {
            0
        },
{
    let half = rest / 2;
    if rest % 2 == 1 {
        assert(rest == 2 * half + 1);
        assert((2 * half + 1) * w == half * (2 * w) + w) by (nonlinear_arith);
    } else {
        assert(rest == 2 * half);
        assert((2 * half) * w == half * (2 * w)) by (nonlinear_arith);
    }
}

proof fn lemma_no_rest(low: nat, rest: nat, w: nat)
    requires
        low + rest * w < w,
    ensures
        rest == 0,
{
    if rest > 0 {
        assert(rest * w >= w) by (nonlinear_arith)
            requires
                rest >= 1,
        ;
    }
}

/// A fixed-width integer held as boolean wires.
#[derive(Debug, PartialEq, Eq)]
pub struct Integer {
    ty: IntegerType,
    bits: Vec<Boolean>,
    value: Option<Native>,
}

impl View for Integer {
    type V = IntegerView;

    closed spec fn view(&self) -> IntegerView {
        IntegerView { ty: self.ty, wires: self.bits@ }
    }
}

/// Reads the native value off a sequence of wires.
#[verifier::rlimit(40)]
fn read_native(ty: IntegerType, bits: &Vec<Boolean>) -> (native: Native)
    requires
        bits@.len() == ty.spec_width(),
    ensures
        native == native_of(ty, value_of(values(bits@), ty.spec_is_signed())),
        native.as_int() == value_of(values(bits@), ty.spec_is_signed()),
        native.spec_fits(ty),
{
    let n: usize = ty.width();
    let signed = ty.is_signed();
    let limit: usize = if signed {
        n - 1
    } else {
        n
    };
    let ghost all = values(bits@);
    let mut low: u128 = 0;
    let mut place: u128 = 1;
    let mut i: usize = 0;
    proof {
        lemma_weight_values();
        assert(all.take(0) =~= Seq::<bool>::empty());
    }
    while i < limit
        invariant
            i <= limit <= n <= 128,
            bits@.len() == n,
            all == values(bits@),
            low == unsigned_value(all.take(i as int)),
            i < 128 ==> place == weight(i as nat),
            weight(127) == 0x8000_0000_0000_0000_0000_0000_0000_0000,
            weight(128) == 0x1_0000_0000_0000_0000_0000_0000_0000_0000,
        decreases limit - i,
    {
        proof {
            lemma_unsigned_bound(all.take(i as int));
            lemma_weight_monotonic(i as nat, 127);
            assert(all.take(i + 1).drop_last() =~= all.take(i as int));
            assert(all.take(i + 1).last() == bits@[i as int].value);
            if i + 1 < 128 {
                lemma_weight_monotonic((i + 1) as nat, 127);
            }
        }
        if bits[i].value {
            low = low + place;
        }
        if i + 1 < 128 {
            place = place * 2;
        }
        i = i + 1;
    }
    proof {
        lemma_unsigned_bound(all.take(i as int));
        lemma_weight_monotonic(i as nat, 128);
    }
    if signed {
        proof {
            assert(all.take(i as int) =~= all.drop_last());
            lemma_weight_monotonic(i as nat, 127);
        }
        let base: i128 = low as i128;
        let top = bits[n - 1].value;
        if top {
            Native::Signed(base + ty.least_signed())
        } else {
            Native::Signed(base)
        }
    } else {
        proof {
            assert(all.take(i as int) =~= all);
        }
        Native::Unsigned(low)
    }
}

impl Integer {
    #[verifier::type_invariant]
    spec fn consistent(self) -> bool {
        &&& self@.wf()
        &&& self.value == self@.cached()
    }

    /// The type of the integer.
    pub fn ty(&self) -> (ty: IntegerType)
        ensures
            ty == self@.ty,
            self@.wf(),
    {
        proof {
            use_type_invariant(self);
        }
        self.ty
    }

    /// The wires of the integer, least significant first.
    pub fn bits(&self) -> (bits: &Vec<Boolean>)
        ensures
            bits@ == self@.wires,
            self@.wf(),
    {
        proof {
            use_type_invariant(self);
        }
        &self.bits
    }

    /// The native value kept beside the wires, present exactly when every
    /// wire is a constant.
    pub fn cached(&self) -> (cached: Option<Native>)
        ensures
            cached == self@.cached(),
            self@.wf(),
            cached matches Some(native) ==> native.as_int() == self@.value() && native.spec_fits(
                self@.ty,
            ),
    {
        proof {
            use_type_invariant(self);
            lemma_value_in_range(self@);
            lemma_weight_values();
        }
        self.value
    }

    /// Whether every wire is a constant, so that the value is known when the
    /// circuit is built.
    pub fn is_constant(&self) -> (constant: bool)
        ensures
            constant == self@.is_constant(),
            constant == (self@.mode() == Mode::Constant),
            self@.wf(),
    {
        proof {
            use_type_invariant(self);
            lemma_constant_mode(self@);
        }
        self.value.is_some()
    }

    /// The join of the modes of all wires.
    pub fn mode(&self) -> (mode: Mode)
        ensures
            mode == self@.mode(),
            self@.wf(),
    {
        proof {
            use_type_invariant(self);
        }
        let ghost all = modes(self.bits@);
        let mut mode = Mode::Constant;
        let mut i: usize = 0;
        while i < self.bits.len()
            invariant
                i <= self.bits.len(),
                all == modes(self.bits@),
                mode == join_all(all.take(i as int)),
            decreases self.bits.len() - i,
        {
            assert(all.take(i + 1).drop_last() =~= all.take(i as int));
            mode = mode.join(self.bits[i].mode);
            i = i + 1;
        }
        assert(all.take(i as int) =~= all);
        mode
    }

    /// The native value that the wires stand for.
    pub fn to_native(&self) -> (native: Native)
        ensures
            native.as_int() == self@.value(),
            native == native_of(self@.ty, self@.value()),
            native.spec_fits(self@.ty),
            self@.wf(),
    {
        proof {
            use_type_invariant(self);
        }
        read_native(self.ty, &self.bits)
    }

    /// A copy that shares the wires.
    pub fn duplicate(&self) -> (copy: Integer)
        ensures
            copy@ == self@,
            self@.wf(),
    {
        proof {
            use_type_invariant(self);
        }
        let bits = copy_wires(&self.bits);
        Integer { ty: self.ty, bits, value: self.value }
    }

    /// Builds an integer of type `ty` over the given wires, least significant
    /// first. Fails exactly when their number is not the width of the type.
    pub fn from_bits_le(ty: IntegerType, bits: &Vec<Boolean>) -> (out: Option<Integer>)
        ensures
            out is Some <==> bits@.len() == ty.spec_width(),
            out matches Some(x) ==> x@ == (IntegerView { ty, wires: bits@ }) && x@.wf(),
    {
        if bits.len() != ty.width() {
            return None;
        }
        let wires = copy_wires(bits);
        let ghost view = IntegerView { ty, wires: bits@ };
        let mut constant = true;
        let mut i: usize = 0;
        while i < wires.len()
            invariant
                i <= wires.len(),
                wires@ == bits@,
                constant == forall|j: int|
                    0 <= j < i ==> (#[trigger] bits@[j]).mode == Mode::Constant,
            decreases wires.len() - i,
        {
            if !wires[i].mode.is_constant() {
                constant = false;
            }
            i = i + 1;
        }
        let value = if constant {
            Some(read_native(ty, &wires))
        } else {
            None
        };
        Some(Integer { ty, bits: wires, value })
    }

    /// Builds an integer of type `ty` over the given wires, most significant
    /// first. Fails exactly when their number is not the width of the type.
    pub fn from_bits_be(ty: IntegerType, bits: &Vec<Boolean>) -> (out: Option<Integer>)
        ensures
            out is Some <==> bits@.len() == ty.spec_width(),
            out matches Some(x) ==> x@ == (IntegerView { ty, wires: bits@.reverse() }) && x@.wf(),
    {
        let reversed = reverse_wires(bits);
        Integer::from_bits_le(ty, &reversed)
    }

    /// The wires, least significant first.
    pub fn to_bits_le(&self) -> (bits: Vec<Boolean>)
        ensures
            bits@ == self@.wires,
            bits@.len() == self@.ty.spec_width(),
    {
        proof {
            use_type_invariant(self);
        }
        copy_wires(&self.bits)
    }

    /// The wires, most significant first: the exact reverse of
    /// [`Integer::to_bits_le`].
    pub fn to_bits_be(&self) -> (bits: Vec<Boolean>)
        ensures
            bits@ == self@.wires_be(),
            bits@.len() == self@.ty.spec_width(),
    {
        proof {
            use_type_invariant(self);
        }
        reverse_wires(&self.bits)
    }

    /// The bytes of the integer, least significant first, each an unsigned
    /// 8-bit integer over eight of the wires.
    #[verifier::rlimit(40)]
    pub fn to_bytes_le(&self) -> (bytes: Vec<Integer>)
        ensures
            bytes@.len() == self@.byte_count(),
            forall|k: int| 0 <= k < bytes@.len() ==> (#[trigger] bytes@[k])@ == self@.byte(k),
            views(bytes@) == self@.bytes_le(),
    {
        proof {
            use_type_invariant(self);
        }
        let count: usize = self.ty.width() / 8;
        let mut bytes: Vec<Integer> = Vec::new();
        let mut k: usize = 0;
        while k < count
            invariant
                k <= count,
                count <= 16,
                count == self@.byte_count(),
                self.bits@.len() == 8 * count,
                self.bits@ == self@.wires,
                bytes@.len() == k,
                forall|j: int| 0 <= j < k ==> (#[trigger] bytes@[j])@ == self@.byte(j),
            decreases count - k,
        {
            let mut chunk: Vec<Boolean> = Vec::new();
            let mut i: usize = 0;
            while i < 8
                invariant
                    i <= 8,
                    k < count,
                    count <= 16,
                    self.bits@.len() == 8 * count,
                    chunk@.len() == i,
                    forall|j: int| 0 <= j < i ==> chunk@[j] == self.bits@[8 * k + j],
                decreases 8 - i,
            {
                chunk.push(self.bits[8 * k + i]);
                i = i + 1;
            }
            assert(chunk@ =~= self@.wires.subrange(8 * k, 8 * k + 8));
            let byte = Integer::from_bits_le(IntegerType::U8, &chunk);
            bytes.push(byte.unwrap());
            k = k + 1;
        }
        assert(views(bytes@) =~= self@.bytes_le());
        bytes
    }

    /// The bytes of the integer, most significant first: the exact reverse of
    /// [`Integer::to_bytes_le`].
    pub fn to_bytes_be(&self) -> (bytes: Vec<Integer>)
        ensures
            bytes@.len() == self@.byte_count(),
            views(bytes@) == self@.bytes_be(),
    {
        let mut bytes = self.to_bytes_le();
        let ghost forward = views(bytes@);
        let n: usize = bytes.len();
        let mut reversed: Vec<Integer> = Vec::new();
        while bytes.len() > 0
            invariant
                bytes@.len() + reversed@.len() == n,
                n == forward.len(),
                forall|j: int| 0 <= j < bytes@.len() ==> (#[trigger] bytes@[j])@ == forward[j],
                forall|j: int|
                    0 <= j < reversed@.len() ==> (#[trigger] reversed@[j])@ == forward[n - 1 - j],
            decreases bytes@.len(),
        {
            let byte = bytes.pop().unwrap();
            reversed.push(byte);
        }
        assert(views(reversed@) =~= forward.reverse());
        reversed
    }

    /// Builds an integer of type `ty` from its bytes, least significant first.
    /// Fails exactly when the number of bytes is not that of the type or one
    /// of them is not an unsigned 8-bit integer.
    #[verifier::rlimit(40)]
    pub fn from_bytes_le(ty: IntegerType, bytes: &Vec<Integer>) -> (out: Option<Integer>)
        ensures
            out is Some <==> 8 * bytes@.len() == ty.spec_width() && all_bytes(views(bytes@)),
            out matches Some(x) ==> x@ == (IntegerView { ty, wires: joined(views(bytes@)) })
                && x@.wf(),
    {
        let ghost all = views(bytes@);
        if bytes.len() != ty.width() / 8 {
            return None;
        }
        let mut wires: Vec<Boolean> = Vec::new();
        let mut k: usize = 0;
        while k < bytes.len()
            invariant
                k <= bytes@.len(),
                all == views(bytes@),
                8 * bytes@.len() == ty.spec_width(),
                wires@.len() == 8 * k,
                forall|j: int| 0 <= j < k ==> (#[trigger] all[j]).ty == IntegerType::U8,
                forall|i: int| 0 <= i < 8 * k ==> wires@[i] == all[i / 8].wires[i % 8],
            decreases bytes@.len() - k,
        {
            let byte = &bytes[k];
            if byte.ty() != IntegerType::U8 {
                assert(all[k as int].ty != IntegerType::U8);
                return None;
            }
            let bits = byte.bits();
            assert(all[k as int] == byte@);
            let mut i: usize = 0;
            while i < 8
                invariant
                    i <= 8,
                    k < bytes@.len(),
                    all == views(bytes@),
                    bits@.len() == 8,
                    bits@ == all[k as int].wires,
                    wires@.len() == 8 * k + i,
                    forall|j: int| 0 <= j < 8 * k + i ==> wires@[j] == all[j / 8].wires[j % 8],
                decreases 8 - i,
            {
                wires.push(bits[i]);
                i = i + 1;
            }
            k = k + 1;
        }
        assert(wires@ =~= joined(all));
        Integer::from_bits_le(ty, &wires)
    }

    /// Builds an integer of type `ty` from its bytes, most significant first.
    /// Fails exactly when the number of bytes is not that of the type or one
    /// of them is not an unsigned 8-bit integer.
    pub fn from_bytes_be(ty: IntegerType, bytes: &Vec<Integer>) -> (out: Option<Integer>)
        ensures
            out is Some <==> 8 * bytes@.len() == ty.spec_width() && all_bytes(views(bytes@)),
            out matches Some(x) ==> x@ == (IntegerView {
                ty,
                wires: joined(views(bytes@).reverse()),
            }) && x@.wf(),
    {
        let ghost all = views(bytes@);
        let n: usize = bytes.len();
        let mut reversed: Vec<Integer> = Vec::new();
        let mut k: usize = 0;
        while k < n
            invariant
                k <= n,
                n == bytes@.len(),
                all == views(bytes@),
                reversed@.len() == k,
                forall|j: int| 0 <= j < k ==> (#[trigger] reversed@[j])@ == all[n - 1 - j],
            decreases n - k,
        {
            reversed.push(bytes[n - 1 - k].duplicate());
            k = k + 1;
        }
        proof {
            assert(views(reversed@) =~= all.reverse());
            if all_bytes(all) {
                assert forall|j: int| 0 <= j < all.reverse().len() implies (
                #[trigger] all.reverse()[j]).ty == IntegerType::U8 by {
                    assert(all[n - 1 - j].ty == IntegerType::U8);
                }
            }
            if all_bytes(all.reverse()) {
                assert forall|j: int| 0 <= j < all.len() implies (#[trigger] all[j]).ty
                    == IntegerType::U8 by {
                    assert(all.reverse()[n - 1 - j].ty == IntegerType::U8);
                }
            }
        }
        Integer::from_bytes_le(ty, &reversed)
    }

    /// Allocates an integer of type `ty` in the given mode from a native
    /// value. Each wire is allocated in `mode`, so a constant takes no
    /// relation and a witness takes one per wire. Fails, leaving the circuit
    /// untouched, exactly when the native value is not one of the type.
    #[verifier::rlimit(40)]
    pub fn allocate(cs: &mut Circuit, ty: IntegerType, mode: Mode, native: Native) -> (out: Option<
        Integer,
    >)
        ensures
            out is Some <==> native.spec_fits(ty),
            out matches Some(x) ==> {
                &&& x@.wf()
                &&& x@.ty == ty
                &&& x@.value() == native.as_int()
                &&& x@.uniform(mode)
                &&& x@.mode() == mode
                &&& final(cs)@.tally() == old(cs)@.tally().plus(
                    wires_cost(mode, ty.spec_width() as nat),
                )
                &&& final(cs)@.extends(old(cs)@)
                &&& final(cs)@.binds_all(x@.wires)
            },
            out is None ==> final(cs)@ == old(cs)@,
            old(cs)@.sound() ==> final(cs)@.sound(),
    {
        if !native.fits(ty) {
            return None;
        }
        let n: usize = ty.width();
        let (negative, magnitude): (bool, u128) = match native {
            Native::Signed(v) => if v >= 0 {
                (false, v as u128)
            } else {
                (true, (-(v + 1)) as u128)
            },
            Native::Unsigned(v) => (false, v),
        };
        let ghost start = cs@;
        let ghost mut raw: Seq<bool> = Seq::empty();
        let mut bits: Vec<Boolean> = Vec::new();
        let mut rest: u128 = magnitude;
        let mut i: usize = 0;
        proof {
            assert(rest * weight(0) == rest) by (nonlinear_arith)
                requires
                    weight(0) == 1,
            ;
        }
        while i < n
            invariant
                i <= n,
                bits@.len() == i,
                raw.len() == i,
                magnitude == unsigned_value(raw) + rest * weight(i as nat),
                forall|j: int|
                    0 <= j < i ==> (#[trigger] bits@[j]).value == (raw[j] != negative)
                        && bits@[j].mode == mode && !bits@[j].inverted,
                cs@.tally() == start.tally().plus(wires_cost(mode, i as nat)),
                cs@.extends(start),
                cs@.binds_all(bits@),
                start.sound() ==> cs@.sound(),
            decreases n - i,
        {
            let b = rest % 2 == 1;
            proof {
                lemma_peel(rest as nat, weight(i as nat));
                lemma_unsigned_push(raw, b);
            }
            let ghost before = cs@;
            let wire = cs.allocate(mode, b != negative);
            proof {
                lemma_binds_all_extends(before, cs@, bits@);
            }
            bits.push(wire);
            proof {
                raw = raw.push(b);
            }
            rest = rest / 2;
            i = i + 1;
        }
        proof {
            let all = values(bits@);
            lemma_weight_values();
            if ty.spec_is_signed() {
                lemma_weight_monotonic((n - 1) as nat, n as nat);
            }
            lemma_no_rest(unsigned_value(raw), rest as nat, weight(n as nat));
            if negative {
                assert(all =~= complement(raw));
                lemma_complement(raw);
                lemma_top_bit(raw);
                lemma_top_bit(all);
                lemma_signed_bound(all);
            } else {
                assert(all =~= raw);
                if ty.spec_is_signed() {
                    lemma_top_bit(raw);
                }
            }
            let view = IntegerView { ty, wires: bits@ };
            lemma_uniform_mode(view, mode);
        }
        let value = if mode.is_constant() {
            Some(native)
        } else {
            None
        };
        Some(Integer { ty, bits, value })
    }

    /// Allocates a constant of type `ty`.
    pub fn constant(cs: &mut Circuit, ty: IntegerType, native: Native) -> (out: Option<Integer>)
        ensures
            out is Some <==> native.spec_fits(ty),
            out matches Some(x) ==> {
                &&& x@.wf()
                &&& x@.ty == ty
                &&& x@.value() == native.as_int()
                &&& x@.uniform(Mode::Constant)
                &&& x@.mode() == Mode::Constant
                &&& final(cs)@.tally() == old(cs)@.tally().plus(
                    wires_cost(Mode::Constant, ty.spec_width() as nat),
                )
                &&& final(cs)@.extends(old(cs)@)
                &&& final(cs)@.binds_all(x@.wires)
            },
            out is None ==> final(cs)@ == old(cs)@,
            old(cs)@.sound() ==> final(cs)@.sound(),
    {
        Integer::allocate(cs, ty, Mode::Constant, native)
    }
}

/// The contents of a sequence of integers.
pub open spec fn views(integers: Seq<Integer>) -> Seq<IntegerView> {
    Seq::new(integers.len(), |k: int| integers[k]@)
}

/// Copies a sequence of wires.
pub fn copy_wires(bits: &Vec<Boolean>) -> (copy: Vec<Boolean>)
    ensures
        copy@ == bits@,
{
    let mut copy: Vec<Boolean> = Vec::new();
    let mut i: usize = 0;
    while i < bits.len()
        invariant
            i <= bits.len(),
            copy@ == bits@.take(i as int),
        decreases bits.len() - i,
    {
        copy.push(bits[i]);
        assert(bits@.take(i + 1) =~= bits@.take(i as int).push(bits@[i as int]));
        i = i + 1;
    }
    assert(bits@.take(i as int) =~= bits@);
    copy
}

/// Reverses a sequence of wires.
pub fn reverse_wires(bits: &Vec<Boolean>) -> (reversed: Vec<Boolean>)
    ensures
        reversed@ == bits@.reverse(),
{
    let n: usize = bits.len();
    let mut reversed: Vec<Boolean> = Vec::new();
    let mut i: usize = 0;
    while i < n
        invariant
            i <= n,
            n == bits.len(),
            reversed@.len() == i,
            forall|j: int| 0 <= j < i ==> reversed@[j] == bits@[n - 1 - j],
        decreases n - i,
    {
        reversed.push(bits[n - 1 - i]);
        i = i + 1;
    }
    assert(reversed@ =~= bits@.reverse());
    reversed
}

} // verus!
