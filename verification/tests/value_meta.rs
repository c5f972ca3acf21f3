use num_bigint::BigInt;
use program_structure::value_meta::{ValueKnowledge, ValueReduction};

#[test]
fn new_knowledge_is_unset() {
    let knowledge = ValueKnowledge::new();
    assert!(!knowledge.is_constant());
    assert!(!knowledge.is_boolean());
    assert!(!knowledge.is_field_element());
    assert!(knowledge.get_reduces_to().is_none());
}

#[test]
fn set_reduces_to_field_element() {
    let mut knowledge = ValueKnowledge::new();
    knowledge.set_reduces_to(ValueReduction::FieldElement { value: BigInt::from(7) });
    assert!(knowledge.is_constant());
    assert!(knowledge.is_field_element());
    assert!(!knowledge.is_boolean());
    match knowledge.get_reduces_to() {
        Some(ValueReduction::FieldElement { value }) => assert_eq!(*value, BigInt::from(7)),
        _ => panic!("expected a field element"),
    }
}

#[test]
fn set_reduces_to_boolean() {
    let mut knowledge = ValueKnowledge::new();
    knowledge.set_reduces_to(ValueReduction::Boolean { value: true });
    assert!(knowledge.is_constant());
    assert!(knowledge.is_boolean());
    assert!(!knowledge.is_field_element());
}

#[test]
fn refine_keeps_a_value_that_is_set() {
    let mut knowledge = ValueKnowledge::new();
    assert!(knowledge.refine(ValueReduction::FieldElement { value: BigInt::from(3) }));
    assert!(knowledge.refine(ValueReduction::FieldElement { value: BigInt::from(3) }));
    assert!(!knowledge.refine(ValueReduction::FieldElement { value: BigInt::from(4) }));
    assert!(!knowledge.refine(ValueReduction::Boolean { value: true }));
    match knowledge.get_reduces_to() {
        Some(ValueReduction::FieldElement { value }) => assert_eq!(*value, BigInt::from(3)),
        _ => panic!("expected a field element"),
    }
}

#[test]
fn join_keeps_what_both_paths_agree_on() {
    let unset = ValueKnowledge::new();
    let mut three = ValueKnowledge::new();
    three.set_reduces_to(ValueReduction::FieldElement { value: BigInt::from(3) });
    let mut also_three = ValueKnowledge::new();
    also_three.set_reduces_to(ValueReduction::FieldElement { value: BigInt::from(3) });
    let mut four = ValueKnowledge::new();
    four.set_reduces_to(ValueReduction::FieldElement { value: BigInt::from(4) });
    let mut yes = ValueKnowledge::new();
    yes.set_reduces_to(ValueReduction::Boolean { value: true });
    assert!(three.join(&also_three).is_field_element());
    assert!(!three.join(&four).is_constant());
    assert!(!three.join(&unset).is_constant());
    assert!(!unset.join(&three).is_constant());
    assert!(!three.join(&yes).is_constant());
    assert!(yes.join(&yes.duplicate()).is_boolean());
}

#[test]
fn same_as_compares_kind_and_value() {
    let three = ValueReduction::FieldElement { value: BigInt::from(3) };
    let big = ValueReduction::FieldElement { value: BigInt::from(1u64 << 40) * BigInt::from(1u64 << 40) };
    assert!(three.same_as(&three.duplicate()));
    assert!(big.same_as(&big.duplicate()));
    assert!(!three.same_as(&big));
    assert!(!three.same_as(&ValueReduction::Boolean { value: true }));
    assert!(ValueReduction::Boolean { value: false }.same_as(&ValueReduction::Boolean { value: false }));
    assert!(!ValueReduction::Boolean { value: false }.same_as(&ValueReduction::Boolean { value: true }));
}

#[test]
fn default_knowledge_is_unset() {
    let knowledge = ValueKnowledge::default();
    assert!(!knowledge.is_constant());
    assert!(knowledge.get_reduces_to().is_none());
}

#[test]
fn clone_holds_the_same_value() {
    let mut knowledge = ValueKnowledge::new();
    knowledge.set_reduces_to(ValueReduction::FieldElement { value: BigInt::from(11) });
    let copy = knowledge.clone();
    assert!(copy.is_field_element());
    match copy.get_reduces_to().cloned() {
        Some(ValueReduction::FieldElement { value }) => assert_eq!(value, BigInt::from(11)),
        _ => panic!("expected a field element"),
    }
    assert!(knowledge.join(&copy).is_field_element());
    assert!(!ValueKnowledge::new().clone().is_constant());
}
