use soakit::{Bulk, ElementwiseAdd, Proxy, Registry, SoAKitError, TypeCheck, Value, View};
use std::rc::Rc;

type Reg = Registry<TypeCheck, ElementwiseAdd>;

fn fb(x: f64) -> u64 {
    f64::to_bits(x)
}

#[test]
fn test_proxy_creation() {
    let bulk = Rc::new(Bulk::new(5).unwrap());
    let proxy = Proxy::new(bulk, 2).unwrap();
    assert_eq!(proxy.index(), 2);
}

#[test]
fn test_proxy_out_of_bounds() {
    let bulk = Rc::new(Bulk::new(10).unwrap());
    let result = Proxy::new(bulk, 10);
    assert!(result.is_err());
    assert!(matches!(result, Err(SoAKitError::IndexOutOfBounds { .. })));
}

#[test]
fn test_proxy_get_field() {
    let mut registry: Reg = Registry::new();
    registry
        .register("age".to_string(), TypeCheck::ScalarInt, false, vec![], None)
        .unwrap();

    let bulk = Bulk::new(3).unwrap();
    let bulk = bulk
        .set(
            &registry,
            "age",
            vec![
                Value::ScalarInt(10),
                Value::ScalarInt(20),
                Value::ScalarInt(30),
            ],
        )
        .unwrap();

    let proxy = bulk.at(1).unwrap();
    assert_eq!(
        proxy.get_field(&registry, "age").unwrap(),
        Value::ScalarInt(20)
    );
}

#[test]
fn test_proxy_get_field_all_types() {
    let mut registry: Reg = Registry::new();
    registry
        .register("age".to_string(), TypeCheck::ScalarInt, false, vec![], None)
        .unwrap();
    registry
        .register(
            "height".to_string(),
            TypeCheck::ScalarFloat,
            false,
            vec![],
            None,
        )
        .unwrap();
    registry
        .register(
            "active".to_string(),
            TypeCheck::ScalarBool,
            false,
            vec![],
            None,
        )
        .unwrap();
    registry
        .register(
            "name".to_string(),
            TypeCheck::ScalarString,
            false,
            vec![],
            None,
        )
        .unwrap();

    let bulk = Bulk::new(2).unwrap();
    let bulk = bulk
        .set(
            &registry,
            "age",
            vec![Value::ScalarInt(25), Value::ScalarInt(30)],
        )
        .unwrap();
    let bulk = bulk
        .set(
            &registry,
            "height",
            vec![Value::ScalarFloat(fb(1.75)), Value::ScalarFloat(fb(1.80))],
        )
        .unwrap();
    let bulk = bulk
        .set(
            &registry,
            "active",
            vec![Value::ScalarBool(true), Value::ScalarBool(false)],
        )
        .unwrap();
    let bulk = bulk
        .set(
            &registry,
            "name",
            vec![
                Value::ScalarString("Alice".to_string()),
                Value::ScalarString("Bob".to_string()),
            ],
        )
        .unwrap();

    let p0 = bulk.at(0).unwrap();
    assert_eq!(
        p0.get_field(&registry, "age").unwrap(),
        Value::ScalarInt(25)
    );
    assert_eq!(
        p0.get_field(&registry, "height").unwrap(),
        Value::ScalarFloat(fb(1.75))
    );
    assert_eq!(
        p0.get_field(&registry, "active").unwrap(),
        Value::ScalarBool(true)
    );
    assert_eq!(
        p0.get_field(&registry, "name").unwrap(),
        Value::ScalarString("Alice".to_string())
    );

    let p1 = bulk.at(1).unwrap();
    assert_eq!(
        p1.get_field(&registry, "age").unwrap(),
        Value::ScalarInt(30)
    );
    assert_eq!(
        p1.get_field(&registry, "height").unwrap(),
        Value::ScalarFloat(fb(1.80))
    );
    assert_eq!(
        p1.get_field(&registry, "active").unwrap(),
        Value::ScalarBool(false)
    );
    assert_eq!(
        p1.get_field(&registry, "name").unwrap(),
        Value::ScalarString("Bob".to_string())
    );
}

#[test]
fn test_proxy_boundary_conditions() {
    let mut registry: Reg = Registry::new();
    registry
        .register(
            "value".to_string(),
            TypeCheck::ScalarInt,
            false,
            vec![],
            None,
        )
        .unwrap();

    let bulk = Bulk::new(3).unwrap();
    let bulk = bulk
        .set(
            &registry,
            "value",
            vec![
                Value::ScalarInt(1),
                Value::ScalarInt(2),
                Value::ScalarInt(3),
            ],
        )
        .unwrap();

    let first = bulk.at(0).unwrap();
    assert_eq!(
        first.get_field(&registry, "value").unwrap(),
        Value::ScalarInt(1)
    );

    let last = bulk.at(2).unwrap();
    assert_eq!(
        last.get_field(&registry, "value").unwrap(),
        Value::ScalarInt(3)
    );
}

#[test]
fn test_proxy_single_element() {
    let mut registry: Reg = Registry::new();
    registry
        .register(
            "value".to_string(),
            TypeCheck::ScalarInt,
            false,
            vec![],
            None,
        )
        .unwrap();

    let bulk = Bulk::new(1).unwrap();
    let bulk = bulk
        .set(&registry, "value", vec![Value::ScalarInt(42)])
        .unwrap();

    let proxy = bulk.at(0).unwrap();
    assert_eq!(
        proxy.get_field(&registry, "value").unwrap(),
        Value::ScalarInt(42)
    );
}

#[test]
fn test_proxy_get_field_nonexistent() {
    let registry: Reg = Registry::new();
    let bulk = Bulk::new(3).unwrap();
    let proxy = bulk.at(0).unwrap();
    let result = proxy.get_field(&registry, "nonexistent");
    assert!(result.is_err());
    assert!(matches!(result, Err(SoAKitError::FieldNotFound(_))));
}

#[test]
fn test_proxy_index_at_boundary() {
    let bulk = Bulk::new(5).unwrap();
    let proxy = bulk.at(4).unwrap();
    assert_eq!(proxy.index(), 4);
    assert!(bulk.at(5).is_err());
}

#[test]
fn test_proxy_bulk_reference() {
    let bulk = Bulk::new(3).unwrap();
    let proxy = bulk.at(1).unwrap();
    assert_eq!(proxy.bulk().count(), 3);
}

#[test]
fn test_proxy_with_derived_field() {
    let mut registry: Reg = Registry::new();
    registry
        .register("a".to_string(), TypeCheck::ScalarInt, false, vec![], None)
        .unwrap();
    registry
        .register("b".to_string(), TypeCheck::ScalarInt, false, vec![], None)
        .unwrap();
    registry
        .register(
            "sum".to_string(),
            TypeCheck::VectorInt,
            true,
            vec!["a".to_string(), "b".to_string()],
            Some(ElementwiseAdd { arity: 2 }),
        )
        .unwrap();

    let bulk = Bulk::new(3).unwrap();
    let bulk = bulk
        .set(
            &registry,
            "a",
            vec![
                Value::ScalarInt(10),
                Value::ScalarInt(20),
                Value::ScalarInt(30),
            ],
        )
        .unwrap();
    let bulk = bulk
        .set(
            &registry,
            "b",
            vec![
                Value::ScalarInt(15),
                Value::ScalarInt(25),
                Value::ScalarInt(35),
            ],
        )
        .unwrap();

    let proxy = bulk.at(1).unwrap();
    assert_eq!(
        proxy.get_field(&registry, "sum").unwrap(),
        Value::ScalarInt(45)
    );
}

#[test]
fn test_proxy_zero_index() {
    let bulk = Bulk::new(3).unwrap();
    let proxy = bulk.at(0).unwrap();
    assert_eq!(proxy.index(), 0);
}

#[test]
fn test_proxy_with_empty_strings() {
    let mut registry: Reg = Registry::new();
    registry
        .register(
            "name".to_string(),
            TypeCheck::ScalarString,
            false,
            vec![],
            None,
        )
        .unwrap();

    let bulk = Bulk::new(2).unwrap();
    let bulk = bulk
        .set(
            &registry,
            "name",
            vec![
                Value::ScalarString(String::new()),
                Value::ScalarString("test".to_string()),
            ],
        )
        .unwrap();

    let proxy = bulk.at(0).unwrap();
    assert_eq!(
        proxy.get_field(&registry, "name").unwrap(),
        Value::ScalarString(String::new())
    );
}

#[test]
fn test_proxy_with_special_float_values() {
    let mut registry: Reg = Registry::new();
    registry
        .register(
            "value".to_string(),
            TypeCheck::ScalarFloat,
            false,
            vec![],
            None,
        )
        .unwrap();

    let bulk = Bulk::new(2).unwrap();
    let bulk = bulk
        .set(
            &registry,
            "value",
            vec![
                Value::ScalarFloat(fb(f64::NAN)),
                Value::ScalarFloat(fb(f64::INFINITY)),
            ],
        )
        .unwrap();

    let p0 = bulk.at(0).unwrap();
    if let Value::ScalarFloat(f) = p0.get_field(&registry, "value").unwrap() {
        assert!(f64::from_bits(f).is_nan());
    } else {
        panic!("Expected ScalarFloat");
    }

    let p1 = bulk.at(1).unwrap();
    if let Value::ScalarFloat(f) = p1.get_field(&registry, "value").unwrap() {
        assert!(f64::from_bits(f).is_infinite());
    } else {
        panic!("Expected ScalarFloat");
    }
}

#[test]
fn test_view_creation() {
    let bulk = Rc::new(Bulk::new(5).unwrap());
    let mask = vec![true, false, true, false, true];
    let view = View::new(Value::ScalarInt(1), mask, bulk).unwrap();
    assert_eq!(view.count(), 3);
}

#[test]
fn test_view_mask_length_mismatch() {
    let bulk = Rc::new(Bulk::new(5).unwrap());
    let mask = vec![true, false];
    let result = View::new(Value::ScalarInt(1), mask, bulk);
    assert!(result.is_err());
    assert!(matches!(result, Err(SoAKitError::LengthMismatch {
            expected: 5,
            actual: 2
        })));
}

#[test]
fn test_view_empty() {
    let bulk = Rc::new(Bulk::new(3).unwrap());
    let empty_mask = vec![false, false, false];
    let view = View::new(Value::ScalarInt(0), empty_mask, bulk).unwrap();
    assert!(view.is_empty());
    assert_eq!(view.count(), 0);
}

#[test]
fn test_view_get_field() {
    let mut registry: Reg = Registry::new();
    registry
        .register("age".to_string(), TypeCheck::ScalarInt, false, vec![], None)
        .unwrap();

    let bulk = Bulk::new(4).unwrap();
    let bulk = bulk
        .set(
            &registry,
            "age",
            vec![
                Value::ScalarInt(10),
                Value::ScalarInt(20),
                Value::ScalarInt(10),
                Value::ScalarInt(30),
            ],
        )
        .unwrap();

    let mask = vec![true, false, true, false];
    let view = View::new(Value::ScalarInt(10), mask, Rc::new(bulk)).unwrap();

    if let Value::VectorInt(ages) = view.get_field(&registry, "age").unwrap() {
        assert_eq!(ages, vec![10, 10]);
    } else {
        panic!("Expected VectorInt");
    }
}

#[test]
fn test_view_key() {
    let bulk = Rc::new(Bulk::new(3).unwrap());
    let key = Value::ScalarString("A".to_string());
    let mask = vec![true, false, true];
    let view = View::new(key.clone(), mask, bulk).unwrap();
    assert_eq!(view.key(), &key);
}

#[test]
fn test_view_mask() {
    let bulk = Rc::new(Bulk::new(3).unwrap());
    let mask = vec![true, false, true];
    let view = View::new(Value::ScalarInt(0), mask.clone(), bulk).unwrap();
    assert_eq!(view.mask(), &mask);
}

#[test]
fn test_view_parent() {
    let bulk = Rc::new(Bulk::new(3).unwrap());
    let mask = vec![true, false, true];
    let view = View::new(Value::ScalarInt(0), mask, bulk.clone()).unwrap();
    assert_eq!(view.parent().count(), bulk.count());
}

#[test]
fn test_partition_views_read_back() {
    let mut registry: Reg = Registry::new();
    registry
        .register(
            "category".to_string(),
            TypeCheck::ScalarInt,
            false,
            vec![],
            None,
        )
        .unwrap();
    registry
        .register(
            "score".to_string(),
            TypeCheck::ScalarInt,
            false,
            vec![],
            None,
        )
        .unwrap();

    let bulk = Bulk::new(4).unwrap();
    let bulk = bulk
        .set(
            &registry,
            "category",
            vec![
                Value::ScalarInt(2),
                Value::ScalarInt(1),
                Value::ScalarInt(2),
                Value::ScalarInt(1),
            ],
        )
        .unwrap();
    let bulk = bulk
        .set(
            &registry,
            "score",
            vec![
                Value::ScalarInt(100),
                Value::ScalarInt(200),
                Value::ScalarInt(300),
                Value::ScalarInt(400),
            ],
        )
        .unwrap();

    let views = bulk.partition_by(&registry, "category").unwrap();
    assert_eq!(views.len(), 2);
    // Integer keys come back ascending.
    assert_eq!(views[0].key(), &Value::ScalarInt(1));
    assert_eq!(views[1].key(), &Value::ScalarInt(2));
    assert_eq!(
        views[0].get_field(&registry, "score").unwrap(),
        Value::VectorInt(vec![200, 400])
    );
    assert_eq!(
        views[1].get_field(&registry, "score").unwrap(),
        Value::VectorInt(vec![100, 300])
    );
}

#[test]
fn test_view_all_true_mask() {
    let bulk = Rc::new(Bulk::new(3).unwrap());
    let mask = vec![true, true, true];
    let view = View::new(Value::ScalarInt(0), mask, bulk).unwrap();
    assert_eq!(view.count(), 3);
    assert!(!view.is_empty());
}

#[test]
fn test_view_single_element() {
    let bulk = Rc::new(Bulk::new(3).unwrap());
    let mask = vec![false, true, false];
    let view = View::new(Value::ScalarInt(0), mask, bulk).unwrap();
    assert_eq!(view.count(), 1);
    assert!(!view.is_empty());
}

#[test]
fn test_view_get_field_all_types() {
    let mut registry: Reg = Registry::new();
    registry
        .register("age".to_string(), TypeCheck::ScalarInt, false, vec![], None)
        .unwrap();
    registry
        .register(
            "height".to_string(),
            TypeCheck::ScalarFloat,
            false,
            vec![],
            None,
        )
        .unwrap();
    registry
        .register(
            "active".to_string(),
            TypeCheck::ScalarBool,
            false,
            vec![],
            None,
        )
        .unwrap();
    registry
        .register(
            "name".to_string(),
            TypeCheck::ScalarString,
            false,
            vec![],
            None,
        )
        .unwrap();

    let bulk = Bulk::new(4).unwrap();
    let bulk = bulk
        .set(
            &registry,
            "age",
            vec![
                Value::ScalarInt(10),
                Value::ScalarInt(20),
                Value::ScalarInt(30),
                Value::ScalarInt(40),
            ],
        )
        .unwrap();
    let bulk = bulk
        .set(
            &registry,
            "height",
            vec![
                Value::ScalarFloat(fb(1.5)),
                Value::ScalarFloat(fb(1.6)),
                Value::ScalarFloat(fb(1.7)),
                Value::ScalarFloat(fb(1.8)),
            ],
        )
        .unwrap();
    let bulk = bulk
        .set(
            &registry,
            "active",
            vec![
                Value::ScalarBool(true),
                Value::ScalarBool(false),
                Value::ScalarBool(true),
                Value::ScalarBool(false),
            ],
        )
        .unwrap();
    let bulk = bulk
        .set(
            &registry,
            "name",
            vec![
                Value::ScalarString("A".to_string()),
                Value::ScalarString("B".to_string()),
                Value::ScalarString("C".to_string()),
                Value::ScalarString("D".to_string()),
            ],
        )
        .unwrap();

    let mask = vec![true, false, true, false];
    let view = View::new(Value::ScalarInt(1), mask, Rc::new(bulk)).unwrap();

    if let Value::VectorInt(v) = view.get_field(&registry, "age").unwrap() {
        assert_eq!(v, vec![10, 30]);
    } else {
        panic!("Expected VectorInt");
    }

    if let Value::VectorFloat(v) = view.get_field(&registry, "height").unwrap() {
        assert_eq!(v, vec![fb(1.5), fb(1.7)]);
    } else {
        panic!("Expected VectorFloat");
    }

    if let Value::VectorBool(v) = view.get_field(&registry, "active").unwrap() {
        assert_eq!(v, vec![true, true]);
    } else {
        panic!("Expected VectorBool");
    }

    if let Value::VectorString(v) = view.get_field(&registry, "name").unwrap() {
        assert_eq!(v, vec!["A".to_string(), "C".to_string()]);
    } else {
        panic!("Expected VectorString");
    }
}

#[test]
fn test_view_get_field_nonexistent() {
    let registry: Reg = Registry::new();
    let bulk = Rc::new(Bulk::new(3).unwrap());
    let mask = vec![true, false, true];
    let view = View::new(Value::ScalarInt(0), mask, bulk).unwrap();

    let result = view.get_field(&registry, "nonexistent");
    assert!(result.is_err());
    assert!(matches!(result, Err(SoAKitError::FieldNotFound(_))));
}

#[test]
fn test_view_get_field_non_vector() {
    // Reads always reassemble stored columns as vectors, so a scalar can
    // only come back through a derived rule; a stored field stays a vector.
    let mut registry: Reg = Registry::new();
    registry
        .register("age".to_string(), TypeCheck::ScalarInt, false, vec![], None)
        .unwrap();
    let bulk = Bulk::new(2).unwrap();
    let bulk = bulk
        .set(
            &registry,
            "age",
            vec![Value::ScalarInt(1), Value::ScalarInt(2)],
        )
        .unwrap();
    let view = View::new(Value::ScalarInt(0), vec![true, true], Rc::new(bulk)).unwrap();
    assert!(matches!(
        view.get_field(&registry, "age").unwrap(),
        Value::VectorInt(_)
    ));
}

#[test]
fn test_view_with_derived_field() {
    let mut registry: Reg = Registry::new();
    registry
        .register("a".to_string(), TypeCheck::ScalarInt, false, vec![], None)
        .unwrap();
    registry
        .register("b".to_string(), TypeCheck::ScalarInt, false, vec![], None)
        .unwrap();
    registry
        .register(
            "sum".to_string(),
            TypeCheck::VectorInt,
            true,
            vec!["a".to_string(), "b".to_string()],
            Some(ElementwiseAdd { arity: 2 }),
        )
        .unwrap();

    let bulk = Bulk::new(4).unwrap();
    let bulk = bulk
        .set(
            &registry,
            "a",
            vec![
                Value::ScalarInt(10),
                Value::ScalarInt(20),
                Value::ScalarInt(30),
                Value::ScalarInt(40),
            ],
        )
        .unwrap();
    let bulk = bulk
        .set(
            &registry,
            "b",
            vec![
                Value::ScalarInt(5),
                Value::ScalarInt(15),
                Value::ScalarInt(25),
                Value::ScalarInt(35),
            ],
        )
        .unwrap();

    let mask = vec![true, false, true, false];
    let view = View::new(Value::ScalarInt(0), mask, Rc::new(bulk)).unwrap();

    if let Value::VectorInt(v) = view.get_field(&registry, "sum").unwrap() {
        assert_eq!(v, vec![15, 55]);
    } else {
        panic!("Expected VectorInt");
    }
}

#[test]
fn test_view_mask_edge_cases() {
    let bulk = Rc::new(Bulk::new(3).unwrap());
    let mask = vec![true, false, false];
    let view = View::new(Value::ScalarInt(0), mask, bulk).unwrap();
    assert_eq!(view.count(), 1);

    let bulk = Rc::new(Bulk::new(3).unwrap());
    let mask = vec![false, false, true];
    let view = View::new(Value::ScalarInt(0), mask, bulk).unwrap();
    assert_eq!(view.count(), 1);

    let bulk = Rc::new(Bulk::new(4).unwrap());
    let mask = vec![true, false, true, false];
    let view = View::new(Value::ScalarInt(0), mask, bulk).unwrap();
    assert_eq!(view.count(), 2);
}

#[test]
fn test_view_with_special_float_values() {
    let mut registry: Reg = Registry::new();
    registry
        .register(
            "value".to_string(),
            TypeCheck::ScalarFloat,
            false,
            vec![],
            None,
        )
        .unwrap();

    let bulk = Bulk::new(4).unwrap();
    let bulk = bulk
        .set(
            &registry,
            "value",
            vec![
                Value::ScalarFloat(fb(1.0)),
                Value::ScalarFloat(fb(f64::NAN)),
                Value::ScalarFloat(fb(3.0)),
                Value::ScalarFloat(fb(f64::INFINITY)),
            ],
        )
        .unwrap();

    let mask = vec![true, true, false, true];
    let view = View::new(Value::ScalarFloat(fb(0.0)), mask, Rc::new(bulk)).unwrap();

    if let Value::VectorFloat(v) = view.get_field(&registry, "value").unwrap() {
        assert_eq!(v.len(), 3);
        assert_eq!(v[0], fb(1.0));
        assert!(f64::from_bits(v[1]).is_nan());
        assert!(f64::from_bits(v[2]).is_infinite());
    } else {
        panic!("Expected VectorFloat");
    }
}

#[test]
fn test_view_with_empty_strings() {
    let mut registry: Reg = Registry::new();
    registry
        .register(
            "name".to_string(),
            TypeCheck::ScalarString,
            false,
            vec![],
            None,
        )
        .unwrap();

    let bulk = Bulk::new(3).unwrap();
    let bulk = bulk
        .set(
            &registry,
            "name",
            vec![
                Value::ScalarString(String::new()),
                Value::ScalarString("test".to_string()),
                Value::ScalarString(String::new()),
            ],
        )
        .unwrap();

    let mask = vec![true, false, true];
    let view = View::new(Value::ScalarString(String::new()), mask, Rc::new(bulk)).unwrap();

    if let Value::VectorString(v) = view.get_field(&registry, "name").unwrap() {
        assert_eq!(v.len(), 2);
        assert_eq!(v[0], String::new());
        assert_eq!(v[1], String::new());
    } else {
        panic!("Expected VectorString");
    }
}
