use fundb::mapx::Mapx;

fn unique_path(tag: &str) -> String {
    format!("/tmp/.fundb_test/{}_{}", tag, rand::random::<u64>())
}

#[test]
fn t_mapx_insert_get_remove() {
    let path = unique_path("map_basic");
    let mut m: Mapx<u64, u64> = Mapx::new(&path, Some(2), true).unwrap();

    assert_eq!(0, m.len());
    assert!(m.get(&1).unwrap().is_none());

    assert_eq!(false, m.insert(&1, 10).unwrap());
    assert_eq!(1, m.len());
    assert_eq!(10, m.get(&1).unwrap().unwrap().into_inner());

    assert_eq!(true, m.insert(&1, 11).unwrap());
    assert_eq!(1, m.len());
    assert_eq!(11, m.get(&1).unwrap().unwrap().into_inner());

    assert_eq!(false, m.insert(&2, 20).unwrap());
    assert_eq!(2, m.len());

    assert_eq!(true, m.remove(&1).unwrap());
    assert!(m.get(&1).unwrap().is_none());
    assert_eq!(1, m.len());

    assert_eq!(false, m.remove(&1).unwrap());
    assert_eq!(1, m.len());
}

#[test]
fn t_mapx_len_counts_live_entries() {
    let path = unique_path("map_len");
    let mut m: Mapx<u64, u64> = Mapx::new(&path, Some(4), true).unwrap();
    for k in 0..8u64 {
        m.insert(&k, k * 100).unwrap();
    }
    assert_eq!(8, m.len());
    for k in 0..4u64 {
        m.remove(&k).unwrap();
    }
    assert_eq!(4, m.len());
    for k in 0..8u64 {
        m.insert(&k, k).unwrap();
    }
    assert_eq!(8, m.len());
}

#[test]
fn t_mapx_iter_ascending_keys() {
    let path = unique_path("map_iter");
    let mut m: Mapx<u64, u64> = Mapx::new(&path, Some(2), true).unwrap();
    m.insert(&3, 30).unwrap();
    m.insert(&1, 10).unwrap();
    m.insert(&2, 20).unwrap();
    let pairs = m.iter_pairs().unwrap();
    let flat: Vec<(u64, u64)> = pairs
        .into_iter()
        .map(|(k, v)| (k, v.into_inner()))
        .collect();
    assert_eq!(vec![(1, 10), (2, 20), (3, 30)], flat);
}

#[test]
fn t_mapx_restore_from_descriptor() {
    let path = unique_path("map_restore");
    let d = {
        let mut m: Mapx<u64, u64> = Mapx::new(&path, Some(2), false).unwrap();
        m.insert(&7, 70).unwrap();
        m.insert(&8, 80).unwrap();
        m.descriptor()
    };
    let m2: Mapx<u64, u64> = Mapx::from_descriptor(&d).unwrap();
    assert_eq!(2, m2.len());
    assert_eq!(70, m2.get(&7).unwrap().unwrap().into_inner());
    assert_eq!(80, m2.get(&8).unwrap().unwrap().into_inner());
    assert!(m2.get(&9).unwrap().is_none());

    let pairs = m2.iter_pairs().unwrap();
    let flat: Vec<(u64, u64)> = pairs
        .into_iter()
        .map(|(k, v)| (k, v.into_inner()))
        .collect();
    assert_eq!(vec![(7, 70), (8, 80)], flat);
}
