use rblock::errno::Error;
use rblock::xarray::XArray;

#[test]
fn set_then_get() {
    let mut xa: XArray<u64> = XArray::new();
    assert!(xa.get(3).is_none());
    assert_eq!(xa.set(3, 30), Ok(()));
    assert_eq!(*xa.get(3).unwrap().borrow(), 30);
    assert!(xa.get(2).is_none());
    assert!(xa.get(4).is_none());
}

#[test]
fn replace_returns_old_value() {
    let mut xa: XArray<u64> = XArray::new();
    assert_eq!(xa.replace(7, 70), Ok(None));
    assert_eq!(xa.replace(7, 71), Ok(Some(70)));
    assert_eq!(*xa.get(7).unwrap().borrow(), 71);
}

#[test]
fn remove_frees_the_slot() {
    let mut xa: XArray<u64> = XArray::new();
    xa.set(1, 10).unwrap();
    assert_eq!(xa.remove(1), Some(10));
    assert_eq!(xa.remove(1), None);
    assert!(xa.get(1).is_none());
}

#[test]
fn allocate_picks_free_indices() {
    let mut xa: XArray<u64> = XArray::new();
    let a = xa.allocate(100).unwrap();
    let b = xa.allocate(200).unwrap();
    assert_ne!(a, b);
    assert_eq!(*xa.get(a).unwrap().borrow(), 100);
    assert_eq!(*xa.get(b).unwrap().borrow(), 200);
}

#[test]
fn alloc_limits_respects_bounds() {
    let mut xa: XArray<u64> = XArray::new();
    let i = xa.alloc_limits(5, 10, 12).unwrap();
    assert!((10..=12).contains(&i));
    let j = xa.alloc_limits(6, 10, 12).unwrap();
    let k = xa.alloc_limits(7, 10, 12).unwrap();
    assert_ne!(i, j);
    assert_ne!(j, k);
    // the range is now full
    assert_eq!(xa.alloc_limits(8, 10, 12), Err(Error::Busy));
}

#[test]
fn reservation_store_fills_the_reserved_index() {
    let mut xa: XArray<u64> = XArray::new();
    let res = xa.reserve_limits(4, 8).unwrap();
    let idx = res.index();
    assert!((4..=8).contains(&idx));
    // a reserved index is not up for allocation
    let other = xa.alloc_limits(1, 4, 8).unwrap();
    assert_ne!(other, idx);
    // but holds no value yet
    assert!(xa.get(idx).is_none());
    assert_eq!(res.store(&mut xa, 42), Ok(idx));
    assert_eq!(*xa.get(idx).unwrap().borrow(), 42);
}

#[test]
fn reserve_empty_range_is_busy() {
    let mut xa: XArray<u64> = XArray::new();
    assert!(matches!(xa.reserve_limits(5, 4), Err(Error::Busy)));
}
