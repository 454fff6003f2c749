use acid_state::{Codec, Ledger, NoteMap, Persistent, Register, Store, Table};

#[test]
fn acid_it_works() {
    let mut store = Store::new();
    let a = Persistent::new("a.acidstate", Ledger { i: 0, m: NoteMap::new() });

    println!("mutating a");
    let mut txn = a.handle(&store);
    let mut led = txn.get().clone();
    led.m.insert(31, "yo");
    txn.set(led);
    let a = txn.commit(&mut store);

    let mut txn = a.handle(&store);
    let mut led = txn.get().clone();
    led.i += 5;
    txn.set(led);
    let a = txn.commit(&mut store);

    let txn = a.handle(&store);
    println!("a is now {:?}", txn.get());
    assert_eq!(txn.get().i, 5);
    assert_eq!(txn.get().m.get(31).map(|s| s.as_str()), Some("yo"));
    let _a = txn.commit(&mut store);
}

#[test]
fn test_it_works() {
    let mut store = Store::new();
    let a = Persistent::new("A.acidstate", Table::new());
    let b = Persistent::new("B.acidstate", 0u64);
    let c = Persistent::new("C.acidstate", Register { v: 0 });

    let key = "yo".to_owned();
    // A, B, C have been pulled off disk
    let mut ta = a.handle(&store);
    let mut tb = b.handle(&store);
    let mut tc = c.handle(&store);

    let current = ta.get().get(key.as_str()).unwrap_or(0) + 1;
    let mut table = ta.get().clone();
    table.insert(key.as_str(), current);
    ta.set(table);

    tb.set(*tb.get() + 1);

    let mut reg = *tc.get();
    reg.v += 1;
    tc.set(reg);

    println!("a is now {:?}", current);
    println!("b is now {:?}", *tb.get());
    println!("c is now {:?}", tc.get().v);

    // new values of A, B, C are now synced on disk
    let a = ta.commit(&mut store);
    let b = tb.commit(&mut store);
    let c = tc.commit(&mut store);

    let ta = a.handle(&store);
    let tb = b.handle(&store);
    let tc = c.handle(&store);
    assert_eq!(ta.get().get("yo"), Some(1));
    assert_eq!(*tb.get(), 1);
    assert_eq!(tc.get().v, 1);
    let _ = ta.commit(&mut store);
    let _ = tb.commit(&mut store);
    let _ = tc.commit(&mut store);
}

#[test]
fn scenario_commit_then_recommit() {
    let mut store = Store::new();
    let ctr = Persistent::new("ctr", Register { v: 0 });

    let mut txn = ctr.handle(&store);
    txn.set(Register { v: 1 });
    let ctr = txn.commit(&mut store);
    let decoded = Register::decode(store.get("ctr").unwrap().as_slice()).unwrap();
    assert_eq!(decoded, Register { v: 1 });

    let mut txn = ctr.handle(&store);
    assert_eq!(txn.get().v, 1);
    txn.set(Register { v: 2 });
    let _ctr = txn.commit(&mut store);
    let decoded = Register::decode(store.get("ctr").unwrap().as_slice()).unwrap();
    assert_eq!(decoded, Register { v: 2 });
}

#[test]
fn scenario_missing_file() {
    let mut store = Store::new();
    let ctr = Persistent::new("ctr", Register { v: 0 });
    let mut txn = ctr.handle(&store);
    txn.set(Register { v: 2 });
    let ctr = txn.commit(&mut store);

    // delete the backing file out from under the container
    store.remove("ctr");
    assert!(store.get("ctr").is_none());

    let txn = ctr.handle(&store);
    assert_eq!(txn.get().v, 2); // resync found nothing, memory wins
    let _ctr = txn.commit(&mut store);
    let decoded = Register::decode(store.get("ctr").unwrap().as_slice()).unwrap();
    assert_eq!(decoded, Register { v: 2 }); // file recreated
}

#[test]
fn scenario_corrupt_file() {
    let mut store = Store::new();
    let ctr = Persistent::new("ctr", Register { v: 2 });
    let ctr = ctr.handle(&store).commit(&mut store);

    // overwrite the backing file with bytes that do not decode
    store.put("ctr", vec![0xff, 0x01, 0x02]);

    let txn = ctr.handle(&store); // must not fail
    assert_eq!(txn.get().v, 2); // memory wins over the corrupt bytes
    let _ctr = txn.commit(&mut store);
}

#[test]
fn resync_overrides_memory() {
    let mut store = Store::new();
    store.put("slot", Register { v: 9 }.encode());

    let ctr = Persistent::new("slot", Register { v: 0 });
    let txn = ctr.handle(&store);
    assert_eq!(txn.get().v, 9); // the backing file replaces the in-memory value
    let _ctr = txn.commit(&mut store);
}

#[test]
fn sequential_transactions_hand_off() {
    let mut store = Store::new();
    let ctr = Persistent::new("seq", 10u64);

    let mut first = ctr.handle(&store);
    first.set(*first.get() + 7);
    let ctr = first.commit(&mut store);

    let second = ctr.handle(&store);
    assert_eq!(*second.get(), 17); // exactly the first commit, nothing lost
    let _ctr = second.commit(&mut store);
}

#[test]
fn clear_removes_only_its_own_file() {
    let mut store = Store::new();
    let one = Persistent::new("one", 1u64);
    let two = Persistent::new("two", 2u64);
    let one = one.handle(&store).commit(&mut store);
    let _two = two.handle(&store).commit(&mut store);

    one.clear(&mut store);
    assert!(store.get("one").is_none());
    assert!(store.get("two").is_some());
}

#[test]
fn read_reports_backing_contents() {
    let mut store = Store::new();
    let ctr = Persistent::new("r", Register { v: 4 });
    assert!(ctr.read(&store).is_none()); // nothing on disk yet
    let ctr = ctr.handle(&store).commit(&mut store);
    assert_eq!(ctr.read(&store), Some(Register { v: 4 }));
    store.put("r", vec![1, 2, 3]);
    assert!(ctr.read(&store).is_none()); // corrupt bytes decode to nothing
}

#[test]
fn resync_value_matches_handle() {
    let mut reg = Register { v: 3 };
    acid_state::resync_value(&mut reg, None);
    assert_eq!(reg, Register { v: 3 });
    acid_state::resync_value(&mut reg, Some(vec![9, 9]));
    assert_eq!(reg, Register { v: 3 });
    acid_state::resync_value(&mut reg, Some(Register { v: 8 }.encode()));
    assert_eq!(reg, Register { v: 8 });
}

#[test]
fn store_put_get_remove() {
    let mut s = Store::new();
    assert!(s.get("a").is_none());
    s.put("a", vec![1]);
    s.put("b", vec![2]);
    assert_eq!(s.get("a"), Some(&vec![1]));
    s.put("a", vec![3]); // writing again replaces the contents
    assert_eq!(s.get("a"), Some(&vec![3]));
    s.remove("a");
    assert!(s.get("a").is_none());
    assert_eq!(s.get("b"), Some(&vec![2]));
}

#[test]
fn commit_bytes_round_trips() {
    let bytes = acid_state::commit_bytes(&Register { v: 5 });
    assert_eq!(Register::decode(&bytes), Some(Register { v: 5 }));
}
