use guac::classifier::{classify_with, normalize_intent, rule_classify, Intent};

#[test]
fn test_rule_classify_kg() {
    assert_eq!(rule_classify("What is FireBAC?"), Intent::KnowledgeGraph);
    assert_eq!(rule_classify("Who is Rory?"), Intent::KnowledgeGraph);
    assert_eq!(rule_classify("tell me about MRMR"), Intent::KnowledgeGraph);
}

#[test]
fn test_rule_classify_memory() {
    assert_eq!(rule_classify("remember my name"), Intent::Memory);
    assert_eq!(rule_classify("what did we discuss?"), Intent::Memory);
    assert_eq!(rule_classify("previously on FireBAC"), Intent::Memory);
}

#[test]
fn test_rule_classify_both() {
    assert_eq!(rule_classify("hello"), Intent::Both);
    assert_eq!(rule_classify("what is FireBAC and what did we say about it?"), Intent::Both);
}

#[test]
fn test_classify_falls_back_without_client() {
    assert_eq!(classify_with("What is FireBAC?", None), Intent::KnowledgeGraph);
}

#[test]
fn model_answers_name_intents() {
    assert_eq!(classify_with("What is FireBAC?", Some("memory".to_string())), Intent::Memory);
    assert_eq!(classify_with("recall", Some("kg".to_string())), Intent::KnowledgeGraph);
    assert_eq!(classify_with("recall", Some("other".to_string())), Intent::Both);
    assert_eq!(normalize_intent("KG"), "kg");
    assert_eq!(normalize_intent("Memory"), "memory");
    assert_eq!(normalize_intent("both please"), "both");
}

#[test]
fn intent_names_round_trip() {
    for i in [Intent::KnowledgeGraph, Intent::Memory, Intent::Both] {
        assert_eq!(Intent::from_name(i.as_str()), i);
    }
    assert_eq!(Intent::KnowledgeGraph.as_str(), "kg");
    assert_eq!(Intent::Memory.as_str(), "memory");
    assert_eq!(Intent::Both.as_str(), "both");
}
