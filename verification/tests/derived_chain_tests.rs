use soakit::{Bulk, ElementwiseAdd, Registry, TypeCheck, Value};
use std::rc::Rc;

type Reg = Registry<TypeCheck, ElementwiseAdd>;

fn registry_with_derived() -> Reg {
    let mut registry: Reg = Registry::new();
    registry
        .register("a".to_string(), TypeCheck::ScalarInt, false, vec![], None)
        .unwrap();
    registry
        .register("b".to_string(), TypeCheck::ScalarInt, false, vec![], None)
        .unwrap();
    registry
        .register(
            "sum".to_string(),
            TypeCheck::VectorInt,
            true,
            vec!["a".to_string(), "b".to_string()],
            Some(ElementwiseAdd { arity: 2 }),
        )
        .unwrap();
    registry
}

fn chain_registry() -> Reg {
    let mut registry: Reg = Registry::new();
    for f in ["a", "b", "c"] {
        registry
            .register(f.to_string(), TypeCheck::ScalarInt, false, vec![], None)
            .unwrap();
    }
    registry
        .register(
            "sum1".to_string(),
            TypeCheck::VectorInt,
            true,
            vec!["a".to_string(), "b".to_string()],
            Some(ElementwiseAdd { arity: 2 }),
        )
        .unwrap();
    registry
        .register(
            "sum2".to_string(),
            TypeCheck::VectorInt,
            true,
            vec!["sum1".to_string(), "c".to_string()],
            Some(ElementwiseAdd { arity: 2 }),
        )
        .unwrap();
    registry
}

#[test]
fn test_simple_derived_field() {
    let registry = registry_with_derived();
    let bulk = Bulk::new(3).unwrap();
    let bulk = bulk
        .set(
            &registry,
            "a",
            vec![
                Value::ScalarInt(10),
                Value::ScalarInt(20),
                Value::ScalarInt(30),
            ],
        )
        .unwrap();
    let mut bulk = bulk
        .set(
            &registry,
            "b",
            vec![
                Value::ScalarInt(5),
                Value::ScalarInt(15),
                Value::ScalarInt(25),
            ],
        )
        .unwrap();

    let sum = bulk.get(&registry, "sum").unwrap();
    if let Value::VectorInt(v) = sum {
        assert_eq!(v, vec![15, 35, 55]);
    } else {
        panic!("Expected VectorInt");
    }
}

#[test]
fn test_derived_field_caching() {
    // Memoization is observed through the cache itself: the first read
    // stores an entry; a second read with unchanged dependencies keeps it
    // and returns the same column.
    let registry = registry_with_derived();
    let bulk = Bulk::new(2).unwrap();
    let bulk = bulk
        .set(
            &registry,
            "a",
            vec![Value::ScalarInt(10), Value::ScalarInt(20)],
        )
        .unwrap();
    let mut bulk = bulk
        .set(
            &registry,
            "b",
            vec![Value::ScalarInt(5), Value::ScalarInt(15)],
        )
        .unwrap();

    assert!(!bulk.is_cached("sum"));
    let sum1 = bulk.get(&registry, "sum").unwrap();
    assert!(bulk.is_cached("sum"));

    let sum2 = bulk.get(&registry, "sum").unwrap();
    assert!(bulk.is_cached("sum"));
    assert_eq!(sum1, sum2);
    assert_eq!(sum1, Value::VectorInt(vec![15, 35]));
}

#[test]
fn test_cache_invalidation_on_dependency_update() {
    let registry = registry_with_derived();
    let bulk = Bulk::new(2).unwrap();
    let bulk = bulk
        .set(
            &registry,
            "a",
            vec![Value::ScalarInt(10), Value::ScalarInt(20)],
        )
        .unwrap();
    let mut bulk = bulk
        .set(
            &registry,
            "b",
            vec![Value::ScalarInt(5), Value::ScalarInt(15)],
        )
        .unwrap();

    let _sum1 = bulk.get(&registry, "sum").unwrap();
    assert!(bulk.is_cached("sum"));

    // A write to a dependency drops the memoized entry; the next read
    // recomputes from the new column.
    let mut bulk = bulk
        .set(
            &registry,
            "a",
            vec![Value::ScalarInt(100), Value::ScalarInt(200)],
        )
        .unwrap();
    assert!(!bulk.is_cached("sum"));

    let sum2 = bulk.get(&registry, "sum").unwrap();
    assert_eq!(sum2, Value::VectorInt(vec![105, 215]));
}

#[test]
fn test_derived_field_with_three_dependencies() {
    let mut registry: Reg = Registry::new();
    for f in ["a", "b", "c"] {
        registry
            .register(f.to_string(), TypeCheck::ScalarInt, false, vec![], None)
            .unwrap();
    }
    registry
        .register(
            "total".to_string(),
            TypeCheck::VectorInt,
            true,
            vec!["a".to_string(), "b".to_string(), "c".to_string()],
            Some(ElementwiseAdd { arity: 3 }),
        )
        .unwrap();

    let bulk = Bulk::new(2).unwrap();
    let bulk = bulk
        .set(
            &registry,
            "a",
            vec![Value::ScalarInt(1), Value::ScalarInt(2)],
        )
        .unwrap();
    let bulk = bulk
        .set(
            &registry,
            "b",
            vec![Value::ScalarInt(10), Value::ScalarInt(20)],
        )
        .unwrap();
    let mut bulk = bulk
        .set(
            &registry,
            "c",
            vec![Value::ScalarInt(100), Value::ScalarInt(200)],
        )
        .unwrap();

    let total = bulk.get(&registry, "total").unwrap();
    if let Value::VectorInt(v) = total {
        assert_eq!(v, vec![111, 222]);
    } else {
        panic!("Expected VectorInt");
    }
}

#[test]
fn test_derived_field_chain() {
    let registry = chain_registry();

    let bulk = Bulk::new(2).unwrap();
    let bulk = bulk
        .set(
            &registry,
            "a",
            vec![Value::ScalarInt(1), Value::ScalarInt(2)],
        )
        .unwrap();
    let bulk = bulk
        .set(
            &registry,
            "b",
            vec![Value::ScalarInt(10), Value::ScalarInt(20)],
        )
        .unwrap();
    let mut bulk = bulk
        .set(
            &registry,
            "c",
            vec![Value::ScalarInt(100), Value::ScalarInt(200)],
        )
        .unwrap();

    let sum1 = bulk.get(&registry, "sum1").unwrap();
    if let Value::VectorInt(v) = sum1 {
        assert_eq!(v, vec![11, 22]);
    } else {
        panic!("Expected VectorInt");
    }

    let sum2 = bulk.get(&registry, "sum2").unwrap();
    if let Value::VectorInt(v) = sum2 {
        assert_eq!(v, vec![111, 222]);
    } else {
        panic!("Expected VectorInt");
    }
}

#[test]
fn test_cache_invalidation_in_chain() {
    let registry = chain_registry();

    let bulk = Bulk::new(2).unwrap();
    let bulk = bulk
        .set(
            &registry,
            "a",
            vec![Value::ScalarInt(1), Value::ScalarInt(2)],
        )
        .unwrap();
    let bulk = bulk
        .set(
            &registry,
            "b",
            vec![Value::ScalarInt(10), Value::ScalarInt(20)],
        )
        .unwrap();
    let mut bulk = bulk
        .set(
            &registry,
            "c",
            vec![Value::ScalarInt(100), Value::ScalarInt(200)],
        )
        .unwrap();

    let _sum2 = bulk.get(&registry, "sum2").unwrap();
    assert!(bulk.is_cached("sum2"));

    // An update of `a` invalidates the whole chain: both memoized columns
    // are dropped, and the next read recomputes both.
    let mut bulk = bulk
        .set(
            &registry,
            "a",
            vec![Value::ScalarInt(5), Value::ScalarInt(6)],
        )
        .unwrap();
    assert!(!bulk.is_cached("sum1"));
    assert!(!bulk.is_cached("sum2"));

    let sum2 = bulk.get(&registry, "sum2").unwrap();
    assert_eq!(sum2, Value::VectorInt(vec![115, 226]));
}

#[test]
fn test_derived_field_with_proxy() {
    let registry = registry_with_derived();
    let bulk = Bulk::new(3).unwrap();
    let bulk = bulk
        .set(
            &registry,
            "a",
            vec![
                Value::ScalarInt(10),
                Value::ScalarInt(20),
                Value::ScalarInt(30),
            ],
        )
        .unwrap();
    let bulk = bulk
        .set(
            &registry,
            "b",
            vec![
                Value::ScalarInt(5),
                Value::ScalarInt(15),
                Value::ScalarInt(25),
            ],
        )
        .unwrap();

    let proxy = bulk.at(2).unwrap();
    assert_eq!(
        proxy.get_field(&registry, "sum").unwrap(),
        Value::ScalarInt(55)
    );
}

#[test]
fn test_derived_field_with_view() {
    let registry = registry_with_derived();
    let bulk = Bulk::new(4).unwrap();
    let bulk = bulk
        .set(
            &registry,
            "a",
            vec![
                Value::ScalarInt(10),
                Value::ScalarInt(20),
                Value::ScalarInt(30),
                Value::ScalarInt(40),
            ],
        )
        .unwrap();
    let bulk = bulk
        .set(
            &registry,
            "b",
            vec![
                Value::ScalarInt(5),
                Value::ScalarInt(15),
                Value::ScalarInt(25),
                Value::ScalarInt(35),
            ],
        )
        .unwrap();

    let mask = vec![true, false, true, false];
    let view = soakit::View::new(Value::ScalarInt(0), mask, Rc::new(bulk)).unwrap();

    if let Value::VectorInt(v) = view.get_field(&registry, "sum").unwrap() {
        assert_eq!(v, vec![15, 55]);
    } else {
        panic!("Expected VectorInt");
    }
}
