use fundb::codec::{gen_sample, SampleBlock};
use fundb::vecx::Vecx;

fn unique_path(tag: &str) -> String {
    format!("/tmp/.fundb_test/{}_{}", tag, rand::random::<u64>())
}

fn descriptor_json(d: &fundb::descriptor::Descriptor) -> String {
    let mut m = serde_json::Map::new();
    m.insert(
        "path".to_string(),
        serde_json::Value::String(d.path.clone()),
    );
    let cnt = match d.in_mem_cnt {
        Some(c) => serde_json::Value::Number(serde_json::Number::from(c as u64)),
        None => serde_json::Value::Null,
    };
    m.insert("in_mem_cnt".to_string(), cnt);
    m.insert("is_tmp".to_string(), serde_json::Value::Bool(d.is_tmp));
    serde_json::to_string(&serde_json::Value::Object(m)).unwrap()
}

#[test]
fn t_vecx_iter_should_work() {
    {
        let cnt: u64 = 5;
        let path = unique_path("iter3");

        let d = {
            let mut db: Vecx<SampleBlock> = Vecx::new(&path, Some(3), false).unwrap();
            assert!(db.iter().next().unwrap().is_none());

            for i in 0..cnt {
                let b = gen_sample(i);
                db.push(b.clone()).unwrap();
                assert_eq!(1 + i as usize, db.len());
                assert_eq!(db.get(i as usize).unwrap().unwrap().into_inner(), b);
                assert_eq!(db.last().unwrap().unwrap().into_inner(), b);
            }

            assert_eq!(cnt as usize, db.len());

            db.descriptor()
        };
        let txt = descriptor_json(&d);
        assert!(txt.contains(r#""in_mem_cnt":3"#));

        let db_restore: Vecx<SampleBlock> = Vecx::from_descriptor(&d).unwrap();

        let mut iter = db_restore.iter();
        assert_eq!(0, iter.mem_hits);

        iter.next().unwrap();
        iter.next().unwrap();
        iter.next().unwrap();
        iter.next().unwrap();
        iter.next().unwrap();

        assert_eq!(3, iter.mem_hits);
    }

    {
        let cnt: u64 = 5;
        let path = unique_path("iter30");

        let d = {
            let mut db: Vecx<SampleBlock> = Vecx::new(&path, Some(30), false).unwrap();
            assert!(db.iter().next().unwrap().is_none());

            for i in 0..cnt {
                let b = gen_sample(i);
                db.push(b.clone()).unwrap();
                assert_eq!(1 + i as usize, db.len());
                assert_eq!(db.get(i as usize).unwrap().unwrap().into_inner(), b);
                assert_eq!(db.last().unwrap().unwrap().into_inner(), b);
            }

            assert_eq!(cnt as usize, db.len());

            db.descriptor()
        };
        let txt = descriptor_json(&d);
        assert!(txt.contains(r#""in_mem_cnt":30"#));

        let db_restore: Vecx<SampleBlock> = Vecx::from_descriptor(&d).unwrap();

        let mut iter = db_restore.iter();
        assert_eq!(0, iter.mem_hits);

        iter.next().unwrap();
        iter.next().unwrap();
        iter.next().unwrap();
        iter.next().unwrap();
        iter.next().unwrap();

        assert_eq!(5, iter.mem_hits);
    }
}

#[test]
fn t_vecx() {
    let cnt: u64 = 200;
    let path = unique_path("plain");

    let d = {
        let mut db: Vecx<SampleBlock> = Vecx::new(&path, None, false).unwrap();

        assert_eq!(0, db.len());
        for i in 0..cnt {
            assert!(db.get(i as usize).unwrap().is_none());
        }

        for i in 0..cnt {
            let b = gen_sample(i);
            db.push(b.clone()).unwrap();
            assert_eq!(1 + i as usize, db.len());
            assert_eq!(db.get(i as usize).unwrap().unwrap().into_inner(), b);
            assert_eq!(db.last().unwrap().unwrap().into_inner(), b);
        }

        assert_eq!(cnt as usize, db.len());

        db.descriptor()
    };

    let db_restore: Vecx<SampleBlock> = Vecx::from_descriptor(&d).unwrap();

    for i in 0..cnt {
        assert_eq!(i, db_restore.get(i as usize).unwrap().unwrap().into_inner().idx);
    }

    assert_eq!(cnt as usize, db_restore.len());
}

#[test]
fn t_value_eq_value_compares_against_bare() {
    let path = unique_path("eq_value");
    let mut db: Vecx<SampleBlock> = Vecx::new(&path, Some(2), true).unwrap();
    for i in 0..4u64 {
        db.push(gen_sample(i)).unwrap();
    }
    for i in 0..4u64 {
        let view = db.get(i as usize).unwrap().unwrap();
        assert!(view.eq_value(&gen_sample(i)));
        assert!(!view.eq_value(&gen_sample(i + 1)));
    }
}

#[test]
fn t_vecx_get_past_end_is_empty() {
    let path = unique_path("past_end");
    let mut db: Vecx<SampleBlock> = Vecx::new(&path, Some(2), true).unwrap();
    db.push(gen_sample(0)).unwrap();
    assert!(db.get(1).unwrap().is_none());
    assert!(db.get(100).unwrap().is_none());
    assert!(db.get(usize::MAX - 1).unwrap().is_none());
}

#[test]
fn t_vecx_ephemeral_store_vanishes() {
    let path = unique_path("ephemeral");
    {
        let mut db: Vecx<SampleBlock> = Vecx::new(&path, None, true).unwrap();
        for i in 0..3u64 {
            db.push(gen_sample(i)).unwrap();
        }
        assert_eq!(3, db.len());
    }
    let db2: Vecx<SampleBlock> = Vecx::new(&path, None, false).unwrap();
    assert_eq!(0, db2.len());
}

#[test]
fn t_vecx_unbounded_capacity_caches_everything() {
    let path = unique_path("unbounded");
    let mut db: Vecx<SampleBlock> = Vecx::new(&path, None, true).unwrap();
    for i in 0..10u64 {
        db.push(gen_sample(i)).unwrap();
    }
    let mut iter = db.iter();
    for _ in 0..10 {
        iter.next().unwrap();
    }
    assert_eq!(10, iter.mem_hits);
}
