use dataflow::backref::{drop_owner, CallbackExpando, ExpandoBase, Handles, R};

#[test]
fn backref_test_t1() {
    let mut h: Handles<i64> = Handles::new();
    let a0 = R::new(&mut h, 6);
    let this1 = R::new(&mut h, 1);
    let mut regs: Vec<ExpandoBase<i64>> = vec![ExpandoBase::new(0, this1.index())];
    let a2 = R::new(&mut h, 2);
    regs[0].add(&mut h, &a2, 12);
    regs[0].add(&mut h, &a0, 10);
    let a1 = R::new(&mut h, 1);
    regs[0].add(&mut h, &a1, 11);
    let a1_id = a1.index();
    // The last reference to a1 goes: its association leaves, and the removal
    // hook gets the registry's owner and the value.
    let removed = drop_owner(&mut h, &mut regs, a1);
    assert_eq!(removed, vec![Some((this1.index(), 11))]);
    assert_eq!(regs[0].iter(), vec![a2.index(), a0.index()]);
    assert!(!regs[0].iter().contains(&a1_id));
    let removed = drop_owner(&mut h, &mut regs, a2);
    assert_eq!(removed, vec![Some((this1.index(), 12))]);
    // The registry goes first: it unregisters itself from a0.
    let reg = regs.pop().unwrap();
    reg.detach(&mut h);
    let removed = drop_owner(&mut h, &mut regs, a0);
    assert!(removed.is_empty());
}

#[test]
fn shared_owner_survives_one_release() {
    let mut h: Handles<i64> = Handles::new();
    let this = R::new(&mut h, 0);
    let owner = R::new(&mut h, 7);
    let second = h.share(&owner);
    assert_eq!(*h.get(&second), 7);
    let mut regs: Vec<ExpandoBase<i64>> = vec![ExpandoBase::new(0, this.index())];
    regs[0].add(&mut h, &owner, 5);
    let removed = drop_owner(&mut h, &mut regs, owner);
    assert!(removed.is_empty());
    assert_eq!(regs[0].iter(), vec![second.index()]);
    let removed = drop_owner(&mut h, &mut regs, second);
    assert_eq!(removed, vec![Some((this.index(), 5))]);
    assert!(regs[0].iter().is_empty());
}

#[test]
fn add_replaces_and_add_multi_appends() {
    let mut h: Handles<i64> = Handles::new();
    let this = R::new(&mut h, 0);
    let owner = R::new(&mut h, 1);
    let mut single: Vec<ExpandoBase<i64>> = vec![ExpandoBase::new(0, this.index())];
    assert_eq!(single[0].add(&mut h, &owner, 1), None);
    // The overwritten value comes back, for the removal hook.
    assert_eq!(single[0].add(&mut h, &owner, 2), Some(1));
    let mut multi: ExpandoBase<Vec<i64>> = ExpandoBase::new(1, this.index());
    multi.add_multi(&mut h, &owner, 3);
    multi.add_multi(&mut h, &owner, 4);
    assert_eq!(multi.get_this(&h), Some(this.index()));
    assert_eq!(multi.value_of(owner.index()), Some(&vec![3, 4]));
    assert_eq!(multi.value_of(this.index()), None);
    multi.detach(&mut h);
    let removed = drop_owner(&mut h, &mut single, owner);
    assert_eq!(removed, vec![Some((this.index(), 2))]);
}

#[test]
fn update_computes_from_previous_value() {
    let mut h: Handles<i64> = Handles::new();
    let this = R::new(&mut h, 0);
    let owner = R::new(&mut h, 1);
    let mut regs: Vec<ExpandoBase<i64>> = vec![ExpandoBase::new(0, this.index())];
    regs[0].update(&mut h, &owner, |prev: Option<i64>| prev.unwrap_or(10) + 1);
    regs[0].update(&mut h, &owner, |prev: Option<i64>| prev.unwrap_or(10) * 3);
    let removed = drop_owner(&mut h, &mut regs, owner);
    assert_eq!(removed, vec![Some((this.index(), 33))]);
}

#[test]
fn callbacks_are_handed_out_owner_by_owner() {
    let mut h: Handles<i64> = Handles::new();
    let this = R::new(&mut h, 0);
    let a = R::new(&mut h, 1);
    let b = R::new(&mut h, 2);
    let mut cbs: CallbackExpando<u8> = CallbackExpando::new(0, this.index());
    cbs.add_callback(&mut h, &a, 7);
    cbs.add_callback(&mut h, &b, 8);
    cbs.add_callback(&mut h, &a, 9);
    // Updating an owner moves its entry last.
    assert_eq!(cbs.call(), vec![(b.index(), 8), (a.index(), 7), (a.index(), 9)]);
    cbs.detach(&mut h);
}

#[test]
fn removal_hook_is_skipped_when_the_registry_owner_is_dead() {
    let mut h: Handles<i64> = Handles::new();
    let this = R::new(&mut h, 0);
    let this_id = this.index();
    let owner = R::new(&mut h, 1);
    let mut regs: Vec<ExpandoBase<i64>> = vec![ExpandoBase::new(0, this_id)];
    regs[0].add(&mut h, &owner, 4);
    let mut none: Vec<ExpandoBase<i64>> = Vec::new();
    assert!(drop_owner(&mut h, &mut none, this).is_empty());
    assert!(!h.is_alive(this_id));
    assert_eq!(regs[0].get_this(&h), None);
    let removed = drop_owner(&mut h, &mut regs, owner);
    assert_eq!(removed, vec![None]);
    assert!(regs[0].iter().is_empty());
}
