use rust_tools::collections::uf::UF;

#[test]
fn test_union() {
    let mut uf: UF<i32> = UF::new();
    let v1 = 1;
    let v2 = 2;
    let v3 = 3;
    assert!(uf.union(&v1, &v2));
    assert!(uf.is_connected(&v1, &v2));
    assert!(!uf.is_connected(&v1, &v3));
    assert!(!uf.union(&v1, &v2));
    assert!(uf.union(&v1, &v3));
    assert!(uf.is_connected(&v2, &v3));
    assert_eq!(1, uf.n_groups());
}

#[test]
fn test_union_fresh_values_make_singletons() {
    let mut uf: UF<u64> = UF::new();
    assert_eq!(0, uf.n_groups());
    assert!(uf.union(&10, &20));
    assert_eq!(1, uf.n_groups());
    assert!(uf.union(&30, &40));
    assert_eq!(2, uf.n_groups());
    assert!(!uf.is_connected(&10, &30));
    assert!(uf.union(&20, &40));
    assert_eq!(1, uf.n_groups());
    assert!(uf.is_connected(&10, &30));
}

#[test]
fn test_union_same_value_twice() {
    let mut uf: UF<i32> = UF::new();
    assert!(!uf.union(&7, &7));
    assert_eq!(1, uf.n_groups());
    assert!(uf.is_connected(&7, &7));
}

#[test]
fn test_find_root_is_shared_in_group() {
    let mut uf: UF<i32> = UF::new();
    uf.union(&1, &2);
    uf.union(&2, &3);
    let r1 = *uf.find_root(&1);
    let r3 = *uf.find_root(&3);
    assert_eq!(r1, r3);
}
