//! The primitive operations that every derived implementation is expressed
//! over, with the kind of value that each one works on, the number of
//! operands that it takes, whether it is exact and the way in which it can
//! fail.

use vstd::prelude::*;

verus! {

/// Low-level operations that get translated directly into e.g. LLVM instructions.
/// These are always wrapped when exposed to end users, and can only make it
/// into an expression when a builtin adds them directly.
#[derive(Debug, Copy, Clone, PartialEq, Eq, Structural)]
pub enum LowLevel {
    StrConcat,
    StrJoinWith,
    StrIsEmpty,
    StrStartsWith,
    StrEndsWith,
    StrSplit,
    StrCountGraphemes,
    StrFromInt,
    StrFromUtf8,
    StrToBytes,
    StrFromFloat,
    ListLen,
    ListGetUnsafe,
    ListSet,
    ListSetInPlace,
    ListSingle,
    ListRepeat,
    ListReverse,
    ListConcat,
    ListContains,
    ListAppend,
    ListPrepend,
    ListJoin,
    ListMap,
    ListMap2,
    ListMap3,
    ListMapWithIndex,
    ListKeepIf,
    ListWalk,
    ListWalkUntil,
    ListWalkBackwards,
    ListSum,
    ListProduct,
    ListKeepOks,
    ListKeepErrs,
    DictSize,
    DictEmpty,
    DictInsert,
    DictRemove,
    DictContains,
    DictGetUnsafe,
    DictKeys,
    DictValues,
    DictUnion,
    DictIntersection,
    DictDifference,
    DictWalk,
    SetFromList,
    NumAdd,
    NumAddWrap,
    NumAddChecked,
    NumSub,
    NumSubWrap,
    NumSubChecked,
    NumMul,
    NumMulWrap,
    NumMulChecked,
    NumGt,
    NumGte,
    NumLt,
    NumLte,
    NumCompare,
    NumDivUnchecked,
    NumRemUnchecked,
    NumIsMultipleOf,
    NumAbs,
    NumNeg,
    NumSin,
    NumCos,
    NumSqrtUnchecked,
    NumLogUnchecked,
    NumRound,
    NumToFloat,
    NumPow,
    NumCeiling,
    NumPowInt,
    NumFloor,
    NumIsFinite,
    NumAtan,
    NumAcos,
    NumAsin,
    NumBitwiseAnd,
    NumBitwiseXor,
    NumBitwiseOr,
    NumShiftLeftBy,
    NumShiftRightBy,
    NumShiftRightZfBy,
    NumIntCast,
    Eq,
    NotEq,
    And,
    Or,
    Not,
    Hash,
}

/// The kind of value that an operation works on.
#[derive(Debug, Copy, Clone, PartialEq, Eq, Structural)]
pub enum Domain {
    /// Strings.
    Text,
    /// Lists.
    Sequence,
    /// Dictionaries and sets.
    Container,
    /// Numbers.
    Numeric,
    /// Values of any type: equality, hashing, boolean logic.
    Generic,
}

/// What an operation does on operands for which it has no result.
#[derive(Debug, Copy, Clone, PartialEq, Eq, Structural)]
pub enum FaultMode {
    /// The operation has a result on every operand.
    Infallible,
    /// The result wraps around, or saturates, where it leaves the range.
    Wrapping,
    /// The operation reports an overflow or a domain condition, which the
    /// caller can detect.
    Failing,
    /// The operation checks nothing: it may only be applied where the
    /// operands are already known to be in its domain.
    Unchecked,
}

/// One of the arithmetic operations that come in several fault modes.
#[derive(Debug, Copy, Clone, PartialEq, Eq, Structural)]
pub enum Arithmetic {
    Add,
    Sub,
    Mul,
}

/// What is asked of an arithmetic operation when its result leaves the range.
#[derive(Debug, Copy, Clone, PartialEq, Eq, Structural)]
pub enum Overflow {
    /// The failure must be detectable.
    Detected,
    /// The result wraps around.
    Wrapped,
    /// The operands are already known not to overflow.
    Excluded,
}

impl LowLevel {
    /// The kind of value that the operation works on.
    pub open spec fn domain_of(self) -> Domain {
        match self {
            LowLevel::StrConcat
            | LowLevel::StrJoinWith
            | LowLevel::StrIsEmpty
            | LowLevel::StrStartsWith
            | LowLevel::StrEndsWith
            | LowLevel::StrSplit
            | LowLevel::StrCountGraphemes
            | LowLevel::StrFromInt
            | LowLevel::StrFromUtf8
            | LowLevel::StrToBytes
            | LowLevel::StrFromFloat => Domain::Text,
            LowLevel::ListLen
            | LowLevel::ListGetUnsafe
            | LowLevel::ListSet
            | LowLevel::ListSetInPlace
            | LowLevel::ListSingle
            | LowLevel::ListRepeat
            | LowLevel::ListReverse
            | LowLevel::ListConcat
            | LowLevel::ListContains
            | LowLevel::ListAppend
            | LowLevel::ListPrepend
            | LowLevel::ListJoin
            | LowLevel::ListMap
            | LowLevel::ListMap2
            | LowLevel::ListMap3
            | LowLevel::ListMapWithIndex
            | LowLevel::ListKeepIf
            | LowLevel::ListWalk
            | LowLevel::ListWalkUntil
            | LowLevel::ListWalkBackwards
            | LowLevel::ListSum
            | LowLevel::ListProduct
            | LowLevel::ListKeepOks
            | LowLevel::ListKeepErrs => Domain::Sequence,
            LowLevel::DictSize
            | LowLevel::DictEmpty
            | LowLevel::DictInsert
            | LowLevel::DictRemove
            | LowLevel::DictContains
            | LowLevel::DictGetUnsafe
            | LowLevel::DictKeys
            | LowLevel::DictValues
            | LowLevel::DictUnion
            | LowLevel::DictIntersection
            | LowLevel::DictDifference
            | LowLevel::DictWalk
            | LowLevel::SetFromList => Domain::Container,
            LowLevel::Eq
            | LowLevel::NotEq
            | LowLevel::And
            | LowLevel::Or
            | LowLevel::Not
            | LowLevel::Hash => Domain::Generic,
            _ => Domain::Numeric,
        }
    }

    /// Whether the operation gives the exact result: all but the operations
    /// on numbers with a fraction, which round.
    pub open spec fn is_exact_of(self) -> bool {
        match self {
            LowLevel::StrFromFloat
            | LowLevel::NumSin
            | LowLevel::NumCos
            | LowLevel::NumSqrtUnchecked
            | LowLevel::NumLogUnchecked
            | LowLevel::NumToFloat
            | LowLevel::NumPow
            | LowLevel::NumAtan
            | LowLevel::NumAcos
            | LowLevel::NumAsin => false,
            _ => true,
        }
    }

    /// The number of operands that the operation takes.
    pub open spec fn arity_of(self) -> u8 {
        match self {
            LowLevel::DictEmpty => 0,
            LowLevel::StrIsEmpty
            | LowLevel::StrCountGraphemes
            | LowLevel::StrFromInt
            | LowLevel::StrFromUtf8
            | LowLevel::StrToBytes
            | LowLevel::StrFromFloat
            | LowLevel::ListLen
            | LowLevel::ListSingle
            | LowLevel::ListReverse
            | LowLevel::ListJoin
            | LowLevel::ListSum
            | LowLevel::ListProduct
            | LowLevel::DictSize
            | LowLevel::DictKeys
            | LowLevel::DictValues
            | LowLevel::SetFromList
            | LowLevel::NumAbs
            | LowLevel::NumNeg
            | LowLevel::NumSin
            | LowLevel::NumCos
            | LowLevel::NumSqrtUnchecked
            | LowLevel::NumLogUnchecked
            | LowLevel::NumRound
            | LowLevel::NumToFloat
            | LowLevel::NumCeiling
            | LowLevel::NumFloor
            | LowLevel::NumIsFinite
            | LowLevel::NumAtan
            | LowLevel::NumAcos
            | LowLevel::NumAsin
            | LowLevel::NumIntCast
            | LowLevel::Not => 1,
            LowLevel::ListSet
            | LowLevel::ListSetInPlace
            | LowLevel::ListMap2
            | LowLevel::ListWalk
            | LowLevel::ListWalkUntil
            | LowLevel::ListWalkBackwards
            | LowLevel::DictInsert
            | LowLevel::DictWalk => 3,
            LowLevel::ListMap3 => 4,
            _ => 2,
        }
    }

    /// The way in which the operation can fail.
    pub open spec fn fault_mode_of(self) -> FaultMode {
        match self {
            LowLevel::NumAddWrap
            | LowLevel::NumSubWrap
            | LowLevel::NumMulWrap
            | LowLevel::NumShiftLeftBy
            | LowLevel::NumShiftRightBy
            | LowLevel::NumShiftRightZfBy
            | LowLevel::NumIntCast => FaultMode::Wrapping,
            LowLevel::NumAddChecked
            | LowLevel::NumSubChecked
            | LowLevel::NumMulChecked
            | LowLevel::StrFromUtf8
            | LowLevel::NumAbs
            | LowLevel::NumNeg
            | LowLevel::NumPowInt
            | LowLevel::NumRound
            | LowLevel::NumCeiling
            | LowLevel::NumFloor => FaultMode::Failing,
            LowLevel::NumAdd
            | LowLevel::NumSub
            | LowLevel::NumMul
            | LowLevel::NumDivUnchecked
            | LowLevel::NumRemUnchecked
            | LowLevel::NumSqrtUnchecked
            | LowLevel::NumLogUnchecked
            | LowLevel::ListGetUnsafe
            | LowLevel::DictGetUnsafe => FaultMode::Unchecked,
            _ => FaultMode::Infallible,
        }
    }

    /// The variant of an arithmetic operation that behaves as asked on
    /// overflow.
    pub open spec fn arithmetic_of(operation: Arithmetic, overflow: Overflow) -> LowLevel {
        match (operation, overflow) {
            (Arithmetic::Add, Overflow::Detected) => LowLevel::NumAddChecked,
            (Arithmetic::Add, Overflow::Wrapped) => LowLevel::NumAddWrap,
            (Arithmetic::Add, Overflow::Excluded) => LowLevel::NumAdd,
            (Arithmetic::Sub, Overflow::Detected) => LowLevel::NumSubChecked,
            (Arithmetic::Sub, Overflow::Wrapped) => LowLevel::NumSubWrap,
            (Arithmetic::Sub, Overflow::Excluded) => LowLevel::NumSub,
            (Arithmetic::Mul, Overflow::Detected) => LowLevel::NumMulChecked,
            (Arithmetic::Mul, Overflow::Wrapped) => LowLevel::NumMulWrap,
            (Arithmetic::Mul, Overflow::Excluded) => LowLevel::NumMul,
        }
    }

    /// The kind of value that the operation works on.
    #[verifier::when_used_as_spec(domain_of)]
    pub fn domain(self) -> (domain: Domain)
        ensures
            domain == self.domain_of(),
    {
        match self {
            LowLevel::StrConcat
            | LowLevel::StrJoinWith
            | LowLevel::StrIsEmpty
            | LowLevel::StrStartsWith
            | LowLevel::StrEndsWith
            | LowLevel::StrSplit
            | LowLevel::StrCountGraphemes
            | LowLevel::StrFromInt
            | LowLevel::StrFromUtf8
            | LowLevel::StrToBytes
            | LowLevel::StrFromFloat => Domain::Text,
            LowLevel::ListLen
            | LowLevel::ListGetUnsafe
            | LowLevel::ListSet
            | LowLevel::ListSetInPlace
            | LowLevel::ListSingle
            | LowLevel::ListRepeat
            | LowLevel::ListReverse
            | LowLevel::ListConcat
            | LowLevel::ListContains
            | LowLevel::ListAppend
            | LowLevel::ListPrepend
            | LowLevel::ListJoin
            | LowLevel::ListMap
            | LowLevel::ListMap2
            | LowLevel::ListMap3
            | LowLevel::ListMapWithIndex
            | LowLevel::ListKeepIf
            | LowLevel::ListWalk
            | LowLevel::ListWalkUntil
            | LowLevel::ListWalkBackwards
            | LowLevel::ListSum
            | LowLevel::ListProduct
            | LowLevel::ListKeepOks
            | LowLevel::ListKeepErrs => Domain::Sequence,
            LowLevel::DictSize
            | LowLevel::DictEmpty
            | LowLevel::DictInsert
            | LowLevel::DictRemove
            | LowLevel::DictContains
            | LowLevel::DictGetUnsafe
            | LowLevel::DictKeys
            | LowLevel::DictValues
            | LowLevel::DictUnion
            | LowLevel::DictIntersection
            | LowLevel::DictDifference
            | LowLevel::DictWalk
            | LowLevel::SetFromList => Domain::Container,
            LowLevel::Eq
            | LowLevel::NotEq
            | LowLevel::And
            | LowLevel::Or
            | LowLevel::Not
            | LowLevel::Hash => Domain::Generic,
            _ => Domain::Numeric,
        }
    }

    /// Whether the operation gives the exact result.
    #[verifier::when_used_as_spec(is_exact_of)]
    pub fn is_exact(self) -> (exact: bool)
        ensures
            exact == self.is_exact_of(),
    {
        match self {
            LowLevel::StrFromFloat
            | LowLevel::NumSin
            | LowLevel::NumCos
            | LowLevel::NumSqrtUnchecked
            | LowLevel::NumLogUnchecked
            | LowLevel::NumToFloat
            | LowLevel::NumPow
            | LowLevel::NumAtan
            | LowLevel::NumAcos
            | LowLevel::NumAsin => false,
            _ => true,
        }
    }

    /// The number of operands that the operation takes.
    #[verifier::when_used_as_spec(arity_of)]
    pub fn arity(self) -> (n: u8)
        ensures
            n == self.arity_of(),
    {
        match self {
            LowLevel::DictEmpty => 0,
            LowLevel::StrIsEmpty
            | LowLevel::StrCountGraphemes
            | LowLevel::StrFromInt
            | LowLevel::StrFromUtf8
            | LowLevel::StrToBytes
            | LowLevel::StrFromFloat
            | LowLevel::ListLen
            | LowLevel::ListSingle
            | LowLevel::ListReverse
            | LowLevel::ListJoin
            | LowLevel::ListSum
            | LowLevel::ListProduct
            | LowLevel::DictSize
            | LowLevel::DictKeys
            | LowLevel::DictValues
            | LowLevel::SetFromList
            | LowLevel::NumAbs
            | LowLevel::NumNeg
            | LowLevel::NumSin
            | LowLevel::NumCos
            | LowLevel::NumSqrtUnchecked
            | LowLevel::NumLogUnchecked
            | LowLevel::NumRound
            | LowLevel::NumToFloat
            | LowLevel::NumCeiling
            | LowLevel::NumFloor
            | LowLevel::NumIsFinite
            | LowLevel::NumAtan
            | LowLevel::NumAcos
            | LowLevel::NumAsin
            | LowLevel::NumIntCast
            | LowLevel::Not => 1,
            LowLevel::ListSet
            | LowLevel::ListSetInPlace
            | LowLevel::ListMap2
            | LowLevel::ListWalk
            | LowLevel::ListWalkUntil
            | LowLevel::ListWalkBackwards
            | LowLevel::DictInsert
            | LowLevel::DictWalk => 3,
            LowLevel::ListMap3 => 4,
            _ => 2,
        }
    }

    /// The way in which the operation can fail.
    #[verifier::when_used_as_spec(fault_mode_of)]
    pub fn fault_mode(self) -> (mode: FaultMode)
        ensures
            mode == self.fault_mode_of(),
    {
        match self {
            LowLevel::NumAddWrap
            | LowLevel::NumSubWrap
            | LowLevel::NumMulWrap
            | LowLevel::NumShiftLeftBy
            | LowLevel::NumShiftRightBy
            | LowLevel::NumShiftRightZfBy
            | LowLevel::NumIntCast => FaultMode::Wrapping,
            LowLevel::NumAddChecked
            | LowLevel::NumSubChecked
            | LowLevel::NumMulChecked
            | LowLevel::StrFromUtf8
            | LowLevel::NumAbs
            | LowLevel::NumNeg
            | LowLevel::NumPowInt
            | LowLevel::NumRound
            | LowLevel::NumCeiling
            | LowLevel::NumFloor => FaultMode::Failing,
            LowLevel::NumAdd
            | LowLevel::NumSub
            | LowLevel::NumMul
            | LowLevel::NumDivUnchecked
            | LowLevel::NumRemUnchecked
            | LowLevel::NumSqrtUnchecked
            | LowLevel::NumLogUnchecked
            | LowLevel::ListGetUnsafe
            | LowLevel::DictGetUnsafe => FaultMode::Unchecked,
            _ => FaultMode::Infallible,
        }
    }

    /// The variant of an arithmetic operation that behaves as asked on
    /// overflow: the checked one where the failure must be detectable, the
    /// wrapping one where the result wraps, and the unchecked one only where
    /// overflow is already excluded.
    #[verifier::when_used_as_spec(arithmetic_of)]
    pub fn arithmetic(operation: Arithmetic, overflow: Overflow) -> (op: LowLevel)
        ensures
            op == LowLevel::arithmetic_of(operation, overflow),
            op.arity_of() == 2,
            overflow == Overflow::Detected <==> op.fault_mode_of() == FaultMode::Failing,
            overflow == Overflow::Wrapped <==> op.fault_mode_of() == FaultMode::Wrapping,
            overflow == Overflow::Excluded <==> op.fault_mode_of() == FaultMode::Unchecked,
    {
        match (operation, overflow) {
            (Arithmetic::Add, Overflow::Detected) => LowLevel::NumAddChecked,
            (Arithmetic::Add, Overflow::Wrapped) => LowLevel::NumAddWrap,
            (Arithmetic::Add, Overflow::Excluded) => LowLevel::NumAdd,
            (Arithmetic::Sub, Overflow::Detected) => LowLevel::NumSubChecked,
            (Arithmetic::Sub, Overflow::Wrapped) => LowLevel::NumSubWrap,
            (Arithmetic::Sub, Overflow::Excluded) => LowLevel::NumSub,
            (Arithmetic::Mul, Overflow::Detected) => LowLevel::NumMulChecked,
            (Arithmetic::Mul, Overflow::Wrapped) => LowLevel::NumMulWrap,
            (Arithmetic::Mul, Overflow::Excluded) => LowLevel::NumMul,
        }
    }
}

} // verus!
