use soakit::{Bulk, ElementwiseAdd, Meta, Registry, SoAKitError, TypeCheck, Value};

type Reg = Registry<TypeCheck, ElementwiseAdd>;

fn fb(x: f64) -> u64 {
    f64::to_bits(x)
}

#[test]
fn test_new_bulk() {
    let bulk = Bulk::new(5).unwrap();
    assert_eq!(bulk.count(), 5);
    assert_eq!(bulk.meta.id, vec![0, 1, 2, 3, 4]);
}

#[test]
fn test_new_bulk_zero_count() {
    let result = Bulk::new(0);
    assert!(result.is_err());
}

#[test]
fn test_set_and_get() {
    let mut registry: Reg = Registry::new();
    registry
        .register("age".to_string(), TypeCheck::ScalarInt, false, vec![], None)
        .unwrap();

    let bulk = Bulk::new(3).unwrap();
    let values = vec![
        Value::ScalarInt(10),
        Value::ScalarInt(20),
        Value::ScalarInt(30),
    ];
    let mut bulk = bulk.set(&registry, "age", values).unwrap();

    let result = bulk.get(&registry, "age").unwrap();
    if let Value::VectorInt(v) = result {
        assert_eq!(v, vec![10, 20, 30]);
    } else {
        panic!("Expected VectorInt");
    }
}

#[test]
fn test_set_length_mismatch() {
    let mut registry: Reg = Registry::new();
    registry
        .register("age".to_string(), TypeCheck::ScalarInt, false, vec![], None)
        .unwrap();

    let bulk = Bulk::new(3).unwrap();
    let values = vec![Value::ScalarInt(10), Value::ScalarInt(20)];
    let result = bulk.set(&registry, "age", values);
    assert!(result.is_err());
    assert!(matches!(result, Err(SoAKitError::LengthMismatch { .. })));
}

#[test]
fn test_set_all_value_types() {
    let mut registry: Reg = Registry::new();
    registry
        .register("age".to_string(), TypeCheck::ScalarInt, false, vec![], None)
        .unwrap();
    registry
        .register(
            "height".to_string(),
            TypeCheck::ScalarFloat,
            false,
            vec![],
            None,
        )
        .unwrap();
    registry
        .register(
            "active".to_string(),
            TypeCheck::ScalarBool,
            false,
            vec![],
            None,
        )
        .unwrap();
    registry
        .register(
            "name".to_string(),
            TypeCheck::ScalarString,
            false,
            vec![],
            None,
        )
        .unwrap();

    let bulk = Bulk::new(2).unwrap();

    let bulk = bulk
        .set(
            &registry,
            "age",
            vec![Value::ScalarInt(25), Value::ScalarInt(30)],
        )
        .unwrap();
    let bulk = bulk
        .set(
            &registry,
            "height",
            vec![Value::ScalarFloat(fb(1.75)), Value::ScalarFloat(fb(1.80))],
        )
        .unwrap();
    let bulk = bulk
        .set(
            &registry,
            "active",
            vec![Value::ScalarBool(true), Value::ScalarBool(false)],
        )
        .unwrap();
    let mut bulk = bulk
        .set(
            &registry,
            "name",
            vec![
                Value::ScalarString("Alice".to_string()),
                Value::ScalarString("Bob".to_string()),
            ],
        )
        .unwrap();

    if let Value::VectorInt(v) = bulk.get(&registry, "age").unwrap() {
        assert_eq!(v, vec![25, 30]);
    } else {
        panic!("Expected VectorInt");
    }

    if let Value::VectorFloat(v) = bulk.get(&registry, "height").unwrap() {
        assert_eq!(v, vec![fb(1.75), fb(1.80)]);
    } else {
        panic!("Expected VectorFloat");
    }

    if let Value::VectorBool(v) = bulk.get(&registry, "active").unwrap() {
        assert_eq!(v, vec![true, false]);
    } else {
        panic!("Expected VectorBool");
    }

    if let Value::VectorString(v) = bulk.get(&registry, "name").unwrap() {
        assert_eq!(v, vec!["Alice".to_string(), "Bob".to_string()]);
    } else {
        panic!("Expected VectorString");
    }
}

#[test]
fn bulk_test_version_tracking() {
    let mut registry: Reg = Registry::new();
    registry
        .register("age".to_string(), TypeCheck::ScalarInt, false, vec![], None)
        .unwrap();

    let bulk = Bulk::new(3).unwrap();
    assert_eq!(bulk.meta.versions.get("age"), None);

    let bulk = bulk
        .set(
            &registry,
            "age",
            vec![
                Value::ScalarInt(10),
                Value::ScalarInt(20),
                Value::ScalarInt(30),
            ],
        )
        .unwrap();
    assert_eq!(bulk.meta.versions.get("age"), Some(&1));

    let bulk = bulk
        .set(
            &registry,
            "age",
            vec![
                Value::ScalarInt(11),
                Value::ScalarInt(21),
                Value::ScalarInt(31),
            ],
        )
        .unwrap();
    assert_eq!(bulk.meta.versions.get("age"), Some(&2));

    let bulk = bulk
        .set(
            &registry,
            "age",
            vec![
                Value::ScalarInt(12),
                Value::ScalarInt(22),
                Value::ScalarInt(32),
            ],
        )
        .unwrap();
    assert_eq!(bulk.meta.versions.get("age"), Some(&3));
}

#[test]
fn test_version_tracking_multiple_fields() {
    let mut registry: Reg = Registry::new();
    registry
        .register("a".to_string(), TypeCheck::ScalarInt, false, vec![], None)
        .unwrap();
    registry
        .register("b".to_string(), TypeCheck::ScalarInt, false, vec![], None)
        .unwrap();

    let bulk = Bulk::new(2).unwrap();
    let bulk = bulk
        .set(
            &registry,
            "a",
            vec![Value::ScalarInt(1), Value::ScalarInt(2)],
        )
        .unwrap();
    let bulk = bulk
        .set(
            &registry,
            "b",
            vec![Value::ScalarInt(3), Value::ScalarInt(4)],
        )
        .unwrap();

    assert_eq!(bulk.meta.versions.get("a"), Some(&1));
    assert_eq!(bulk.meta.versions.get("b"), Some(&1));

    let bulk = bulk
        .set(
            &registry,
            "a",
            vec![Value::ScalarInt(10), Value::ScalarInt(20)],
        )
        .unwrap();

    assert_eq!(bulk.meta.versions.get("a"), Some(&2));
    assert_eq!(bulk.meta.versions.get("b"), Some(&1));
}

fn sum_registry() -> Reg {
    let mut registry: Reg = Registry::new();
    registry
        .register("a".to_string(), TypeCheck::ScalarInt, false, vec![], None)
        .unwrap();
    registry
        .register("b".to_string(), TypeCheck::ScalarInt, false, vec![], None)
        .unwrap();
    registry
        .register(
            "sum".to_string(),
            TypeCheck::VectorInt,
            true,
            vec!["a".to_string(), "b".to_string()],
            Some(ElementwiseAdd { arity: 2 }),
        )
        .unwrap();
    registry
}

#[test]
fn bulk_test_derived_field_caching() {
    let registry = sum_registry();

    let bulk = Bulk::new(3).unwrap();
    let bulk = bulk
        .set(
            &registry,
            "a",
            vec![
                Value::ScalarInt(10),
                Value::ScalarInt(20),
                Value::ScalarInt(30),
            ],
        )
        .unwrap();
    let mut bulk = bulk
        .set(
            &registry,
            "b",
            vec![
                Value::ScalarInt(5),
                Value::ScalarInt(15),
                Value::ScalarInt(25),
            ],
        )
        .unwrap();

    let sum1 = bulk.get(&registry, "sum").unwrap();
    if let Value::VectorInt(v) = sum1 {
        assert_eq!(v, vec![15, 35, 55]);
    } else {
        panic!("Expected VectorInt");
    }

    let sum2 = bulk.get(&registry, "sum").unwrap();
    if let Value::VectorInt(v) = sum2 {
        assert_eq!(v, vec![15, 35, 55]);
    } else {
        panic!("Expected VectorInt");
    }
}

#[test]
fn test_cache_invalidation() {
    let registry = sum_registry();

    let bulk = Bulk::new(2).unwrap();
    let bulk = bulk
        .set(
            &registry,
            "a",
            vec![Value::ScalarInt(10), Value::ScalarInt(20)],
        )
        .unwrap();
    let mut bulk = bulk
        .set(
            &registry,
            "b",
            vec![Value::ScalarInt(5), Value::ScalarInt(15)],
        )
        .unwrap();

    let _sum1 = bulk.get(&registry, "sum").unwrap();

    let mut bulk = bulk
        .set(
            &registry,
            "a",
            vec![Value::ScalarInt(100), Value::ScalarInt(200)],
        )
        .unwrap();

    let sum2 = bulk.get(&registry, "sum").unwrap();
    if let Value::VectorInt(v) = sum2 {
        assert_eq!(v, vec![105, 215]);
    } else {
        panic!("Expected VectorInt");
    }
}

#[test]
fn test_cache_entry_tracking() {
    let registry = sum_registry();
    let bulk = Bulk::new(2).unwrap();
    let bulk = bulk
        .set(
            &registry,
            "a",
            vec![Value::ScalarInt(1), Value::ScalarInt(2)],
        )
        .unwrap();
    let mut bulk = bulk
        .set(
            &registry,
            "b",
            vec![Value::ScalarInt(3), Value::ScalarInt(4)],
        )
        .unwrap();

    assert!(!bulk.is_cached("sum"));
    let _ = bulk.get(&registry, "sum").unwrap();
    assert!(bulk.is_cached("sum"));

    // A write to a direct dependency drops the memoized column.
    let bulk2 = bulk
        .set(
            &registry,
            "a",
            vec![Value::ScalarInt(7), Value::ScalarInt(8)],
        )
        .unwrap();
    assert!(!bulk2.is_cached("sum"));
}

#[test]
fn test_get_nonexistent_field() {
    let registry: Reg = Registry::new();
    let mut bulk = Bulk::new(3).unwrap();
    let result = bulk.get(&registry, "nonexistent");
    assert!(result.is_err());
    assert!(matches!(result, Err(SoAKitError::FieldNotFound(_))));
}

#[test]
fn test_set_nonexistent_field() {
    let registry: Reg = Registry::new();
    let bulk = Bulk::new(3).unwrap();
    let values = vec![
        Value::ScalarInt(10),
        Value::ScalarInt(20),
        Value::ScalarInt(30),
    ];
    let result = bulk.set(&registry, "nonexistent", values);
    assert!(result.is_err());
    assert!(matches!(result, Err(SoAKitError::FieldNotFound(_))));
}

#[test]
fn test_set_validation_failure() {
    let mut registry: Reg = Registry::new();
    registry
        .register("age".to_string(), TypeCheck::ScalarInt, false, vec![], None)
        .unwrap();

    let bulk = Bulk::new(3).unwrap();
    let values = vec![
        Value::ScalarFloat(fb(10.0)),
        Value::ScalarFloat(fb(20.0)),
        Value::ScalarFloat(fb(30.0)),
    ];
    let result = bulk.set(&registry, "age", values);
    assert!(result.is_err());
    assert!(matches!(result, Err(SoAKitError::ValidationFailed(_))));
}

#[test]
fn bulk_test_apply_operation() {
    let mut registry: Reg = Registry::new();
    registry
        .register("age".to_string(), TypeCheck::ScalarInt, false, vec![], None)
        .unwrap();

    let bulk = Bulk::new(5).unwrap();
    let bulk = bulk
        .set(
            &registry,
            "age",
            vec![
                Value::ScalarInt(10),
                Value::ScalarInt(20),
                Value::ScalarInt(30),
                Value::ScalarInt(40),
                Value::ScalarInt(50),
            ],
        )
        .unwrap();

    let mask = vec![true, false, true, false, true];
    let mut new_bulk = bulk
        .apply(&mask, |subset: Vec<Value>| {
            Ok(subset
                .iter()
                .map(|v| {
                    if let Value::ScalarInt(i) = v {
                        Value::ScalarInt(i + 1)
                    } else {
                        v.clone()
                    }
                })
                .collect())
        })
        .unwrap();

    if let Value::VectorInt(v) = new_bulk.get(&registry, "age").unwrap() {
        assert_eq!(v, vec![11, 20, 31, 40, 51]);
    } else {
        panic!("Expected VectorInt");
    }
}

#[test]
fn test_apply_empty_mask() {
    let mut registry: Reg = Registry::new();
    registry
        .register("age".to_string(), TypeCheck::ScalarInt, false, vec![], None)
        .unwrap();

    let bulk = Bulk::new(3).unwrap();
    let bulk = bulk
        .set(
            &registry,
            "age",
            vec![
                Value::ScalarInt(10),
                Value::ScalarInt(20),
                Value::ScalarInt(30),
            ],
        )
        .unwrap();

    let mask: Vec<bool> = vec![];
    let mut new_bulk = bulk
        .apply(&mask, |subset: Vec<Value>| {
            Ok(subset
                .iter()
                .map(|v| {
                    if let Value::ScalarInt(i) = v {
                        Value::ScalarInt(i + 1)
                    } else {
                        v.clone()
                    }
                })
                .collect())
        })
        .unwrap();

    if let Value::VectorInt(v) = new_bulk.get(&registry, "age").unwrap() {
        assert_eq!(v, vec![11, 21, 31]);
    } else {
        panic!("Expected VectorInt");
    }
}

#[test]
fn test_apply_mask_length_mismatch() {
    let mut registry: Reg = Registry::new();
    registry
        .register("age".to_string(), TypeCheck::ScalarInt, false, vec![], None)
        .unwrap();

    let bulk = Bulk::new(3).unwrap();
    let bulk = bulk
        .set(
            &registry,
            "age",
            vec![
                Value::ScalarInt(10),
                Value::ScalarInt(20),
                Value::ScalarInt(30),
            ],
        )
        .unwrap();

    let mask = vec![true, false];
    let result = bulk.apply(&mask, |subset: Vec<Value>| Ok(subset));
    assert!(result.is_err());
    assert!(matches!(result, Err(SoAKitError::LengthMismatch {
            expected: 3,
            actual: 2
        })));
}

#[test]
fn test_apply_wrong_result_count() {
    let mut registry: Reg = Registry::new();
    registry
        .register("age".to_string(), TypeCheck::ScalarInt, false, vec![], None)
        .unwrap();

    let bulk = Bulk::new(3).unwrap();
    let bulk = bulk
        .set(
            &registry,
            "age",
            vec![
                Value::ScalarInt(10),
                Value::ScalarInt(20),
                Value::ScalarInt(30),
            ],
        )
        .unwrap();

    let mask = vec![true, true, false];
    let result = bulk.apply(&mask, |_subset: Vec<Value>| Ok(vec![Value::ScalarInt(1)]));
    assert!(result.is_err());
    assert!(matches!(result, Err(SoAKitError::LengthMismatch {
            expected: 2,
            actual: 1
        })));
}

#[test]
fn test_partition_by_int() {
    let mut registry: Reg = Registry::new();
    registry
        .register(
            "category".to_string(),
            TypeCheck::ScalarInt,
            false,
            vec![],
            None,
        )
        .unwrap();

    let bulk = Bulk::new(6).unwrap();
    let bulk = bulk
        .set(
            &registry,
            "category",
            vec![
                Value::ScalarInt(1),
                Value::ScalarInt(2),
                Value::ScalarInt(1),
                Value::ScalarInt(3),
                Value::ScalarInt(2),
                Value::ScalarInt(1),
            ],
        )
        .unwrap();

    let views = bulk.partition_by(&registry, "category").unwrap();
    assert_eq!(views.len(), 3);

    let view_1 = views
        .iter()
        .find(|v| {
            if let Value::ScalarInt(i) = v.key() {
                *i == 1
            } else {
                false
            }
        })
        .unwrap();
    assert_eq!(view_1.count(), 3);

    let view_2 = views
        .iter()
        .find(|v| {
            if let Value::ScalarInt(i) = v.key() {
                *i == 2
            } else {
                false
            }
        })
        .unwrap();
    assert_eq!(view_2.count(), 2);

    let view_3 = views
        .iter()
        .find(|v| {
            if let Value::ScalarInt(i) = v.key() {
                *i == 3
            } else {
                false
            }
        })
        .unwrap();
    assert_eq!(view_3.count(), 1);
}

#[test]
fn test_partition_by_string() {
    let mut registry: Reg = Registry::new();
    registry
        .register(
            "category".to_string(),
            TypeCheck::ScalarString,
            false,
            vec![],
            None,
        )
        .unwrap();

    let bulk = Bulk::new(4).unwrap();
    let bulk = bulk
        .set(
            &registry,
            "category",
            vec![
                Value::ScalarString("A".to_string()),
                Value::ScalarString("B".to_string()),
                Value::ScalarString("A".to_string()),
                Value::ScalarString("C".to_string()),
            ],
        )
        .unwrap();

    let views = bulk.partition_by(&registry, "category").unwrap();
    assert_eq!(views.len(), 3);
}

#[test]
fn test_partition_by_float() {
    let mut registry: Reg = Registry::new();
    registry
        .register(
            "value".to_string(),
            TypeCheck::ScalarFloat,
            false,
            vec![],
            None,
        )
        .unwrap();

    let bulk = Bulk::new(4).unwrap();
    let bulk = bulk
        .set(
            &registry,
            "value",
            vec![
                Value::ScalarFloat(fb(1.0)),
                Value::ScalarFloat(fb(2.0)),
                Value::ScalarFloat(fb(1.0)),
                Value::ScalarFloat(fb(3.0)),
            ],
        )
        .unwrap();

    let views = bulk.partition_by(&registry, "value").unwrap();
    assert_eq!(views.len(), 3);
}

#[test]
fn test_partition_by_bool() {
    let mut registry: Reg = Registry::new();
    registry
        .register(
            "flag".to_string(),
            TypeCheck::ScalarBool,
            false,
            vec![],
            None,
        )
        .unwrap();

    let bulk = Bulk::new(4).unwrap();
    let bulk = bulk
        .set(
            &registry,
            "flag",
            vec![
                Value::ScalarBool(true),
                Value::ScalarBool(false),
                Value::ScalarBool(true),
                Value::ScalarBool(false),
            ],
        )
        .unwrap();

    let views = bulk.partition_by(&registry, "flag").unwrap();
    assert_eq!(views.len(), 2);
}

#[test]
fn test_partition_by_bool_one_sided() {
    let mut registry: Reg = Registry::new();
    registry
        .register(
            "flag".to_string(),
            TypeCheck::ScalarBool,
            false,
            vec![],
            None,
        )
        .unwrap();

    let bulk = Bulk::new(3).unwrap();
    let bulk = bulk
        .set(
            &registry,
            "flag",
            vec![
                Value::ScalarBool(true),
                Value::ScalarBool(true),
                Value::ScalarBool(true),
            ],
        )
        .unwrap();

    // Boolean partitions always give the pair true then false.
    let views = bulk.partition_by(&registry, "flag").unwrap();
    assert_eq!(views.len(), 2);
    assert_eq!(views[0].key(), &Value::ScalarBool(true));
    assert_eq!(views[1].key(), &Value::ScalarBool(false));
    assert_eq!(views[0].count(), 3);
    assert_eq!(views[1].count(), 0);
}

#[test]
fn test_partition_nonexistent_field() {
    let registry: Reg = Registry::new();
    let bulk = Bulk::new(3).unwrap();
    let result = bulk.partition_by(&registry, "nonexistent");
    assert!(result.is_err());
    assert!(matches!(result, Err(SoAKitError::FieldNotFound(_))));
}

#[test]
fn test_list_data_fields() {
    let mut registry: Reg = Registry::new();
    registry
        .register("age".to_string(), TypeCheck::ScalarInt, false, vec![], None)
        .unwrap();
    registry
        .register(
            "height".to_string(),
            TypeCheck::ScalarInt,
            false,
            vec![],
            None,
        )
        .unwrap();

    let bulk = Bulk::new(3).unwrap();
    let bulk = bulk
        .set(
            &registry,
            "age",
            vec![
                Value::ScalarInt(10),
                Value::ScalarInt(20),
                Value::ScalarInt(30),
            ],
        )
        .unwrap();
    let bulk = bulk
        .set(
            &registry,
            "height",
            vec![
                Value::ScalarInt(100),
                Value::ScalarInt(200),
                Value::ScalarInt(300),
            ],
        )
        .unwrap();

    let fields = bulk.list_data_fields();
    assert_eq!(fields.len(), 2);
    assert!(fields.contains(&"age".to_string()));
    assert!(fields.contains(&"height".to_string()));
}

#[test]
fn test_at_proxy() {
    let mut registry: Reg = Registry::new();
    registry
        .register("age".to_string(), TypeCheck::ScalarInt, false, vec![], None)
        .unwrap();

    let bulk = Bulk::new(3).unwrap();
    let bulk = bulk
        .set(
            &registry,
            "age",
            vec![
                Value::ScalarInt(10),
                Value::ScalarInt(20),
                Value::ScalarInt(30),
            ],
        )
        .unwrap();

    let proxy = bulk.at(1).unwrap();
    assert_eq!(
        proxy.get_field(&registry, "age").unwrap(),
        Value::ScalarInt(20)
    );
}

#[test]
fn test_at_out_of_bounds() {
    let bulk = Bulk::new(10).unwrap();
    let result = bulk.at(10);
    assert!(result.is_err());
    assert!(matches!(result, Err(SoAKitError::IndexOutOfBounds { index: 10, max: 10 })));
}

#[test]
fn bulk_test_single_element_bulk() {
    let mut registry: Reg = Registry::new();
    registry
        .register("age".to_string(), TypeCheck::ScalarInt, false, vec![], None)
        .unwrap();

    let bulk = Bulk::new(1).unwrap();
    let mut bulk = bulk
        .set(&registry, "age", vec![Value::ScalarInt(42)])
        .unwrap();

    if let Value::VectorInt(v) = bulk.get(&registry, "age").unwrap() {
        assert_eq!(v, vec![42]);
    } else {
        panic!("Expected VectorInt");
    }
}

#[test]
fn bulk_test_large_bulk() {
    let mut registry: Reg = Registry::new();
    registry
        .register(
            "value".to_string(),
            TypeCheck::ScalarInt,
            false,
            vec![],
            None,
        )
        .unwrap();

    let count = 1000;
    let bulk = Bulk::new(count).unwrap();
    let values: Vec<Value> = (0..count as i64).map(Value::ScalarInt).collect();
    let mut bulk = bulk.set(&registry, "value", values).unwrap();

    assert_eq!(bulk.count(), count);
    if let Value::VectorInt(v) = bulk.get(&registry, "value").unwrap() {
        assert_eq!(v.len(), count);
        assert_eq!(v[0], 0);
        assert_eq!(v[999], 999);
    } else {
        panic!("Expected VectorInt");
    }
}

#[test]
fn test_meta_new() {
    let meta = Meta::new(10).unwrap();
    assert_eq!(meta.count, 10);
    assert_eq!(meta.id, (0..10).collect::<Vec<_>>());
    assert_eq!(meta.versions.len(), 0);
}

#[test]
fn test_meta_new_zero() {
    let result = Meta::new(0);
    assert!(result.is_err());
    assert!(matches!(result, Err(SoAKitError::InvalidArgument(_))));
}

#[test]
fn test_bulk_clone() {
    let mut registry: Reg = Registry::new();
    registry
        .register("age".to_string(), TypeCheck::ScalarInt, false, vec![], None)
        .unwrap();

    let bulk = Bulk::new(3).unwrap();
    let bulk = bulk
        .set(
            &registry,
            "age",
            vec![
                Value::ScalarInt(10),
                Value::ScalarInt(20),
                Value::ScalarInt(30),
            ],
        )
        .unwrap();

    let mut cloned = bulk.clone();
    assert_eq!(cloned.count(), bulk.count());
    if let Value::VectorInt(v) = cloned.get(&registry, "age").unwrap() {
        assert_eq!(v, vec![10, 20, 30]);
    } else {
        panic!("Expected VectorInt");
    }
}

#[test]
fn test_chunk_boundary_round_trips() {
    // The fixed tile capacity, one over it, and a two-tile-and-a-bit count.
    for &count in &[1024usize, 1025, 2 * 1024 + 50] {
        let mut registry: Reg = Registry::new();
        registry
            .register("n".to_string(), TypeCheck::ScalarInt, false, vec![], None)
            .unwrap();
        let bulk = Bulk::new(count).unwrap();
        let values: Vec<Value> = (0..count as i64).map(Value::ScalarInt).collect();
        let mut bulk = bulk.set(&registry, "n", values).unwrap();
        if let Value::VectorInt(v) = bulk.get(&registry, "n").unwrap() {
            let expect: Vec<i64> = (0..count as i64).collect();
            assert_eq!(v, expect);
        } else {
            panic!("Expected VectorInt");
        }
    }
}

#[test]
fn test_scenario_register_set_get() {
    let mut registry: Reg = Registry::new();
    registry
        .register("age".to_string(), TypeCheck::ScalarInt, false, vec![], None)
        .unwrap();
    let bulk = Bulk::new(3).unwrap();
    let mut bulk = bulk
        .set(
            &registry,
            "age",
            vec![
                Value::ScalarInt(25),
                Value::ScalarInt(30),
                Value::ScalarInt(35),
            ],
        )
        .unwrap();
    assert_eq!(
        bulk.get(&registry, "age").unwrap(),
        Value::VectorInt(vec![25, 30, 35])
    );
    assert_eq!(bulk.meta.versions.get("age"), Some(&1));
}

#[test]
fn test_scenario_derived_sum_updates() {
    let registry = sum_registry();
    let bulk = Bulk::new(3).unwrap();
    let bulk = bulk
        .set(
            &registry,
            "a",
            vec![
                Value::ScalarInt(10),
                Value::ScalarInt(20),
                Value::ScalarInt(30),
            ],
        )
        .unwrap();
    let mut bulk = bulk
        .set(
            &registry,
            "b",
            vec![
                Value::ScalarInt(5),
                Value::ScalarInt(15),
                Value::ScalarInt(25),
            ],
        )
        .unwrap();
    assert_eq!(
        bulk.get(&registry, "sum").unwrap(),
        Value::VectorInt(vec![15, 35, 55])
    );
    let mut bulk = bulk
        .set(
            &registry,
            "a",
            vec![
                Value::ScalarInt(100),
                Value::ScalarInt(200),
                Value::ScalarInt(300),
            ],
        )
        .unwrap();
    assert_eq!(
        bulk.get(&registry, "sum").unwrap(),
        Value::VectorInt(vec![105, 215, 325])
    );
}

#[test]
fn test_scenario_derived_chain() {
    // sum1 = a + b, sum2 = sum1 + c; an update of a flows through both.
    let mut registry: Reg = Registry::new();
    for f in ["a", "b", "c"] {
        registry
            .register(f.to_string(), TypeCheck::ScalarInt, false, vec![], None)
            .unwrap();
    }
    registry
        .register(
            "sum1".to_string(),
            TypeCheck::VectorInt,
            true,
            vec!["a".to_string(), "b".to_string()],
            Some(ElementwiseAdd { arity: 2 }),
        )
        .unwrap();
    registry
        .register(
            "sum2".to_string(),
            TypeCheck::VectorInt,
            true,
            vec!["sum1".to_string(), "c".to_string()],
            Some(ElementwiseAdd { arity: 2 }),
        )
        .unwrap();

    let bulk = Bulk::new(2).unwrap();
    let bulk = bulk
        .set(
            &registry,
            "a",
            vec![Value::ScalarInt(1), Value::ScalarInt(2)],
        )
        .unwrap();
    let bulk = bulk
        .set(
            &registry,
            "b",
            vec![Value::ScalarInt(10), Value::ScalarInt(20)],
        )
        .unwrap();
    let mut bulk = bulk
        .set(
            &registry,
            "c",
            vec![Value::ScalarInt(100), Value::ScalarInt(200)],
        )
        .unwrap();

    assert_eq!(
        bulk.get(&registry, "sum2").unwrap(),
        Value::VectorInt(vec![111, 222])
    );
    assert!(bulk.is_cached("sum2"));

    let mut bulk = bulk
        .set(
            &registry,
            "a",
            vec![Value::ScalarInt(5), Value::ScalarInt(6)],
        )
        .unwrap();
    assert!(!bulk.is_cached("sum2"));
    assert_eq!(
        bulk.get(&registry, "sum2").unwrap(),
        Value::VectorInt(vec![115, 226])
    );
}

#[test]
fn test_float_round_trip_preserves_bits() {
    let mut registry: Reg = Registry::new();
    registry
        .register(
            "x".to_string(),
            TypeCheck::ScalarFloat,
            false,
            vec![],
            None,
        )
        .unwrap();
    let bulk = Bulk::new(3).unwrap();
    let nan = f64::NAN;
    let inf = f64::INFINITY;
    let mut bulk = bulk
        .set(
            &registry,
            "x",
            vec![
                Value::ScalarFloat(fb(nan)),
                Value::ScalarFloat(fb(inf)),
                Value::ScalarFloat(fb(-0.0)),
            ],
        )
        .unwrap();
    if let Value::VectorFloat(v) = bulk.get(&registry, "x").unwrap() {
        assert!(f64::from_bits(v[0]).is_nan());
        assert!(f64::from_bits(v[1]).is_infinite());
        assert_eq!(v[2], fb(-0.0));
    } else {
        panic!("Expected VectorFloat");
    }
}

#[test]
fn test_partition_by_string_sorted_keys() {
    let mut registry: Reg = Registry::new();
    registry
        .register(
            "category".to_string(),
            TypeCheck::ScalarString,
            false,
            vec![],
            None,
        )
        .unwrap();

    let bulk = Bulk::new(4).unwrap();
    let bulk = bulk
        .set(
            &registry,
            "category",
            vec![
                Value::ScalarString("banana".to_string()),
                Value::ScalarString("apple".to_string()),
                Value::ScalarString("cherry".to_string()),
                Value::ScalarString("apple".to_string()),
            ],
        )
        .unwrap();

    let views = bulk.partition_by(&registry, "category").unwrap();
    assert_eq!(views.len(), 3);
    assert_eq!(views[0].key(), &Value::ScalarString("apple".to_string()));
    assert_eq!(views[1].key(), &Value::ScalarString("banana".to_string()));
    assert_eq!(views[2].key(), &Value::ScalarString("cherry".to_string()));
    assert_eq!(views[0].mask(), &vec![false, true, false, true]);
    assert_eq!(views[1].mask(), &vec![true, false, false, false]);
    assert_eq!(views[2].mask(), &vec![false, false, true, false]);
}

#[test]
fn test_list_data_fields_sorted() {
    let mut registry: Reg = Registry::new();
    for f in ["zeta", "alpha", "mid"] {
        registry
            .register(f.to_string(), TypeCheck::ScalarInt, false, vec![], None)
            .unwrap();
    }

    let mut bulk = Bulk::new(1).unwrap();
    for f in ["zeta", "alpha", "mid"] {
        bulk = bulk
            .set(&registry, f, vec![Value::ScalarInt(1)])
            .unwrap();
    }

    let fields = bulk.list_data_fields();
    assert_eq!(fields.len(), 3);
    assert_eq!(fields[0], "alpha");
    assert_eq!(fields[1], "mid");
    assert_eq!(fields[2], "zeta");
}
