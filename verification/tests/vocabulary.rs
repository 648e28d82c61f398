use deriver::content_hash::sorted_words;
use deriver::low_level::{Arithmetic, Domain, FaultMode, LowLevel, Overflow};
use deriver::place::places;
use deriver::strategy::{Ability, Strategy};

#[test]
fn operations_have_their_arity() {
    assert_eq!(LowLevel::DictEmpty.arity(), 0);
    assert_eq!(LowLevel::ListLen.arity(), 1);
    assert_eq!(LowLevel::Not.arity(), 1);
    assert_eq!(LowLevel::StrToBytes.arity(), 1);
    assert_eq!(LowLevel::StrConcat.arity(), 2);
    assert_eq!(LowLevel::NumAddChecked.arity(), 2);
    assert_eq!(LowLevel::Eq.arity(), 2);
    assert_eq!(LowLevel::And.arity(), 2);
    assert_eq!(LowLevel::Hash.arity(), 2);
    assert_eq!(LowLevel::ListGetUnsafe.arity(), 2);
    assert_eq!(LowLevel::ListSet.arity(), 3);
    assert_eq!(LowLevel::ListMap2.arity(), 3);
    assert_eq!(LowLevel::DictInsert.arity(), 3);
    assert_eq!(LowLevel::ListWalk.arity(), 3);
    assert_eq!(LowLevel::ListMap3.arity(), 4);
}

#[test]
fn operations_have_their_fault_mode() {
    assert_eq!(LowLevel::ListLen.fault_mode(), FaultMode::Infallible);
    assert_eq!(LowLevel::Eq.fault_mode(), FaultMode::Infallible);
    assert_eq!(LowLevel::NumAddWrap.fault_mode(), FaultMode::Wrapping);
    assert_eq!(LowLevel::NumIntCast.fault_mode(), FaultMode::Wrapping);
    assert_eq!(LowLevel::NumAddChecked.fault_mode(), FaultMode::Failing);
    assert_eq!(LowLevel::StrFromUtf8.fault_mode(), FaultMode::Failing);
    assert_eq!(LowLevel::NumAdd.fault_mode(), FaultMode::Unchecked);
    assert_eq!(LowLevel::NumDivUnchecked.fault_mode(), FaultMode::Unchecked);
    assert_eq!(LowLevel::ListGetUnsafe.fault_mode(), FaultMode::Unchecked);
    assert_eq!(LowLevel::DictGetUnsafe.fault_mode(), FaultMode::Unchecked);
}

#[test]
fn arithmetic_is_chosen_by_what_overflow_must_do() {
    assert_eq!(LowLevel::arithmetic(Arithmetic::Add, Overflow::Detected), LowLevel::NumAddChecked);
    assert_eq!(LowLevel::arithmetic(Arithmetic::Add, Overflow::Wrapped), LowLevel::NumAddWrap);
    assert_eq!(LowLevel::arithmetic(Arithmetic::Add, Overflow::Excluded), LowLevel::NumAdd);
    assert_eq!(LowLevel::arithmetic(Arithmetic::Sub, Overflow::Detected), LowLevel::NumSubChecked);
    assert_eq!(LowLevel::arithmetic(Arithmetic::Sub, Overflow::Wrapped), LowLevel::NumSubWrap);
    assert_eq!(LowLevel::arithmetic(Arithmetic::Sub, Overflow::Excluded), LowLevel::NumSub);
    assert_eq!(LowLevel::arithmetic(Arithmetic::Mul, Overflow::Detected), LowLevel::NumMulChecked);
    assert_eq!(LowLevel::arithmetic(Arithmetic::Mul, Overflow::Wrapped), LowLevel::NumMulWrap);
    assert_eq!(LowLevel::arithmetic(Arithmetic::Mul, Overflow::Excluded), LowLevel::NumMul);
}

#[test]
fn each_ability_has_its_strategy() {
    assert_eq!(Ability::Eq.strategy(), Strategy::LayoutEquivalence);
    assert_eq!(Ability::Hash.strategy(), Strategy::LayoutEquivalence);
    assert_eq!(Ability::Encode.strategy(), Strategy::Encoding);
    assert_eq!(Ability::Decode.strategy(), Strategy::Decoding);
    assert_eq!(Strategy::LayoutEquivalence.abilities(), vec![Ability::Eq, Ability::Hash]);
    assert_eq!(Strategy::Encoding.abilities(), vec![Ability::Encode]);
    assert_eq!(Strategy::Decoding.abilities(), vec![Ability::Decode]);
    assert_eq!(Strategy::LayoutEquivalence.code(), 1);
    assert_eq!(Strategy::Encoding.code(), 2);
    assert_eq!(Strategy::Decoding.code(), 3);
}

#[test]
fn each_strategy_observes_its_features() {
    assert!(!Strategy::LayoutEquivalence.observes_names());
    assert!(!Strategy::LayoutEquivalence.observes_optionality());
    assert!(Strategy::LayoutEquivalence.observes_discriminant());
    assert!(Strategy::Encoding.observes_names());
    assert!(!Strategy::Encoding.observes_optionality());
    assert!(!Strategy::Encoding.observes_discriminant());
    assert!(Strategy::Decoding.observes_names());
    assert!(Strategy::Decoding.observes_optionality());
    assert!(!Strategy::Decoding.observes_discriminant());
}

#[test]
fn canonical_place_is_the_place_in_ascending_order() {
    assert_eq!(places(&vec![30, 10, 20]), vec![2, 0, 1]);
    assert_eq!(places(&vec![7, 7, 3, 7]), vec![1, 2, 0, 3]);
    assert_eq!(places(&vec![u64::MAX]), vec![0]);
    assert_eq!(places(&Vec::new()), Vec::<usize>::new());
}

#[test]
fn operations_have_their_domain() {
    assert_eq!(LowLevel::StrConcat.domain(), Domain::Text);
    assert_eq!(LowLevel::StrFromFloat.domain(), Domain::Text);
    assert_eq!(LowLevel::ListLen.domain(), Domain::Sequence);
    assert_eq!(LowLevel::ListKeepErrs.domain(), Domain::Sequence);
    assert_eq!(LowLevel::DictSize.domain(), Domain::Container);
    assert_eq!(LowLevel::SetFromList.domain(), Domain::Container);
    assert_eq!(LowLevel::NumAdd.domain(), Domain::Numeric);
    assert_eq!(LowLevel::NumIntCast.domain(), Domain::Numeric);
    assert_eq!(LowLevel::NumShiftRightZfBy.domain(), Domain::Numeric);
    assert_eq!(LowLevel::Eq.domain(), Domain::Generic);
    assert_eq!(LowLevel::Hash.domain(), Domain::Generic);
    assert_eq!(LowLevel::Not.domain(), Domain::Generic);
}

#[test]
fn canonical_place_leads_to_the_digest_in_ascending_order() {
    let digests = vec![9u64, 3, 9, 0, 7, 3, u64::MAX, 9];
    let ascending = sorted_words(&digests);
    let at = places(&digests);
    let mut seen = vec![false; digests.len()];
    for i in 0..digests.len() {
        assert_eq!(ascending[at[i]], digests[i]);
        assert!(!seen[at[i]]);
        seen[at[i]] = true;
    }
    let reordered = vec![3u64, 9, u64::MAX, 9, 0, 9, 3, 7];
    let other = places(&reordered);
    for i in 0..digests.len() {
        for j in 0..reordered.len() {
            if at[i] == other[j] {
                assert_eq!(digests[i], reordered[j]);
            }
        }
    }
}

#[test]
fn operations_on_fractions_are_not_exact() {
    assert!(!LowLevel::NumSin.is_exact());
    assert!(!LowLevel::NumPow.is_exact());
    assert!(!LowLevel::NumToFloat.is_exact());
    assert!(!LowLevel::StrFromFloat.is_exact());
    assert!(!LowLevel::NumSqrtUnchecked.is_exact());
    assert!(LowLevel::NumAdd.is_exact());
    assert!(LowLevel::NumPowInt.is_exact());
    assert!(LowLevel::NumRound.is_exact());
    assert!(LowLevel::Eq.is_exact());
    assert!(LowLevel::ListLen.is_exact());
    assert!(LowLevel::StrFromInt.is_exact());
}
