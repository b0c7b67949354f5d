use stat_system::stat_component::bundle::{DeterminingStatBundle, StatBundle};
use stat_system::stat_component::cache_set::{set_cache_set, CacheSet};
use stat_system::stat_component::change::{transfer_changes, Change};
use stat_system::stat_component::change_generic::{
    transfer_changes as transfer_changes_generic, AlgebraicSystem, AlgebraicSystemAdd, AlgebraicSystemMul,
    ChangeGeneric,
};
use stat_system::stat_component::determining_apply_changes::FoldCollectCfg;
use stat_system::stat_component::determining_apply_changes_generic as generic_apply;
use stat_system::stat_component::stat::Stat;
use stat_system::stat_component::stat_apply_change::{change_apply_change, stat_apply_change};
use stat_system::stat_component::stat_pac::StatPack;
use stat_system::stat_num::StatNum;
use stat_system::utils::stat_for_hlist::MapTakeStatChange;

#[test]
fn stat_default_is_zero() {
    let s: Stat<i64> = Stat::default();
    assert_eq!(s.0, 0);
    let s32: Stat<i32> = Stat::default();
    assert_eq!(s32.0, 0);
}

#[test]
fn change_accumulates_and_resets() {
    let mut c: Change<i64> = Change::default();
    c.add_change(5);
    c.add_change(-2);
    c.add_change(10);
    assert_eq!(c.0, 13);
    assert_eq!(c.get_and_reset(), 13);
    assert_eq!(c.0, 0);
    assert_eq!(c.get_and_reset(), 0);
}

#[test]
fn change_transfer_keeps_total() {
    let mut src = Change(10i64);
    let mut tar = Change(3i64);
    transfer_changes(4, &mut src, &mut tar);
    assert_eq!(src.0, 6);
    assert_eq!(tar.0, 7);
    assert_eq!(src.0 + tar.0, 13);
    transfer_changes(-5, &mut src, &mut tar);
    assert_eq!(src.0, 11);
    assert_eq!(tar.0, 2);
}

#[test]
fn numbers_of_both_widths() {
    assert_eq!(<i32 as StatNum>::zero(), 0);
    assert_eq!(<i64 as StatNum>::one(), 1);
    assert_eq!(7i32.plus(-9), -2);
    assert_eq!(7i64.negated(), -7);
    assert_eq!((-3i64).times(4), -12);
    assert_eq!(1i64.reciprocal(), 1);
    assert_eq!((-1i32).reciprocal(), -1);
    assert_eq!(2i64.reciprocal(), 0);
    assert_eq!((-7i64).reciprocal(), 0);
    assert_eq!(i64::MAX.checked_plus(1), None);
    assert_eq!(5i64.checked_plus(-7), Some(-2));
    assert_eq!(i32::MIN.checked_plus(-1), None);
    assert_eq!(i64::MIN.checked_negated(), None);
    assert_eq!(i32::MAX.checked_negated(), Some(-i32::MAX));
    assert!((-1i64).is_negative());
    assert!(!0i32.is_negative());
}

#[test]
fn algebraic_system_add() {
    assert_eq!(<AlgebraicSystemAdd as AlgebraicSystem<i64>>::unit(), 0);
    assert_eq!(<AlgebraicSystemAdd as AlgebraicSystem<i64>>::apply(3, 4), 7);
    assert_eq!(<AlgebraicSystemAdd as AlgebraicSystem<i64>>::inverse(3), -3);
    let mut a = 10i64;
    <AlgebraicSystemAdd as AlgebraicSystem<i64>>::apply_assign(&mut a, -4);
    assert_eq!(a, 6);
}

#[test]
fn algebraic_system_mul() {
    assert_eq!(<AlgebraicSystemMul as AlgebraicSystem<i64>>::unit(), 1);
    assert_eq!(<AlgebraicSystemMul as AlgebraicSystem<i64>>::apply(3, 4), 12);
    assert_eq!(<AlgebraicSystemMul as AlgebraicSystem<i64>>::inverse(-1), -1);
    assert_eq!(<AlgebraicSystemMul as AlgebraicSystem<i64>>::inverse(3), 0);
    let mut a = 5i32;
    <AlgebraicSystemMul as AlgebraicSystem<i32>>::apply_assign(&mut a, -2);
    assert_eq!(a, -10);
}

#[test]
fn change_generic_add() {
    let mut c: ChangeGeneric<i64, AlgebraicSystemAdd> = ChangeGeneric::default();
    assert_eq!(c.0, 0);
    c.add_change(3);
    c.add_change(4);
    assert_eq!(c.0, 7);
    let mut stat = 100i64;
    c.apply_to(&mut stat);
    assert_eq!(stat, 107);
    assert_eq!(c.0, 0);
    c.add_change(-1);
    assert_eq!(c.get_and_reset(), -1);
    assert_eq!(c.0, 0);
}

#[test]
fn change_generic_mul() {
    let mut c: ChangeGeneric<i64, AlgebraicSystemMul> = ChangeGeneric::default();
    assert_eq!(c.0, 1);
    c.add_change(3);
    c.add_change(2);
    assert_eq!(c.0, 6);
    let mut stat = 5i64;
    c.apply_to(&mut stat);
    assert_eq!(stat, 30);
    assert_eq!(c.0, 1);
}

#[test]
fn change_generic_transfer() {
    let mut src: ChangeGeneric<i64, AlgebraicSystemAdd> = ChangeGeneric::default();
    let mut tar: ChangeGeneric<i64, AlgebraicSystemAdd> = ChangeGeneric::default();
    src.add_change(9);
    transfer_changes_generic(4, &mut src, &mut tar);
    assert_eq!(src.0, 5);
    assert_eq!(tar.0, 4);

    let mut msrc: ChangeGeneric<i64, AlgebraicSystemMul> = ChangeGeneric::default();
    let mut mtar: ChangeGeneric<i64, AlgebraicSystemMul> = ChangeGeneric::default();
    msrc.add_change(6);
    transfer_changes_generic(2, &mut msrc, &mut mtar);
    assert_eq!(mtar.0, 2);
    // the inverse of two rounds toward zero
    assert_eq!(msrc.0, 0);
}

#[test]
fn generic_stat_and_change_apply() {
    let mut change: ChangeGeneric<i64, AlgebraicSystemAdd> = ChangeGeneric::default();
    change.add_change(8);
    let mut stat = Stat(2i64);
    generic_apply::stat_apply_change(&mut change, &mut stat);
    assert_eq!(stat.0, 10);
    assert_eq!(change.0, 0);

    let mut source: ChangeGeneric<i64, AlgebraicSystemMul> = ChangeGeneric::default();
    let mut target: ChangeGeneric<i64, AlgebraicSystemMul> = ChangeGeneric::default();
    source.add_change(3);
    target.add_change(5);
    generic_apply::change_apply_change(&mut source, &mut target);
    assert_eq!(target.0, 15);
    assert_eq!(source.0, 1);
}

#[test]
fn stat_and_change_apply() {
    let mut change = Change(7i64);
    let mut stat = Stat(-3i64);
    stat_apply_change(&mut change, &mut stat);
    assert_eq!(stat.0, 4);
    assert_eq!(change.0, 0);

    let mut source = Change(5i64);
    let mut target = Change(6i64);
    change_apply_change(&mut source, &mut target);
    assert_eq!(target.0, 11);
    assert_eq!(source.0, 0);

    let mut c2 = Change(1i32);
    let mut s2 = Stat(1i32);
    stat_system::stat_component::determining_apply_changes::stat_apply_change(&mut c2, &mut s2);
    assert_eq!(s2.0, 2);
    assert_eq!(c2.0, 0);
    let mut c3 = Change(4i32);
    stat_system::stat_component::determining_apply_changes::change_apply_change(&mut c3, &mut c2);
    assert_eq!(c2.0, 4);
    assert_eq!(c3.0, 0);
}

#[test]
fn stat_pack_flow() {
    let mut p: StatPack<i64> = StatPack::new(50);
    assert_eq!(*p.get(), 50);
    p.add_change(-20);
    p.add_change(5);
    // the stat keeps its value until the change is applied
    assert_eq!(*p.get(), 50);
    p.apply_change();
    assert_eq!(*p.get(), 35);
    // applying again adds nothing
    p.apply_change();
    assert_eq!(*p.get(), 35);
    let d: StatPack<i32> = StatPack::default();
    assert_eq!(*d.get(), 0);
}

#[test]
fn bundles() {
    let b = StatBundle::new(12i64);
    assert_eq!(b.stat.0, 12);
    assert_eq!(b.change.0, 0);
    let d: DeterminingStatBundle<i64> = DeterminingStatBundle::new(-4);
    assert_eq!(d.stat.0, -4);
    assert_eq!(d.change.0, 0);
    let z: StatBundle<i32> = StatBundle::default();
    assert_eq!(z.stat.0, 0);
    let zd: DeterminingStatBundle<i32> = DeterminingStatBundle::default();
    assert_eq!(zd.change.0, 0);
}

#[test]
fn cache_set_writes_once() {
    let mut a = 1i64;
    let mut cache = CacheSet(Some(9i64));
    set_cache_set(&mut a, &mut cache);
    assert_eq!(a, 9);
    assert!(cache.0.is_none());
    set_cache_set(&mut a, &mut cache);
    assert_eq!(a, 9);
    let mut empty: CacheSet<i64> = CacheSet::default();
    let mut b = 3i64;
    set_cache_set(&mut b, &mut empty);
    assert_eq!(b, 3);
}

#[test]
fn take_stat_change() {
    let s = Stat(8i64);
    let c = Change(3i64);
    assert_eq!(MapTakeStatChange::call_stat(&s).0, 8);
    assert_eq!(MapTakeStatChange::call_change(&c).0, 0);
}

#[test]
fn fold_collect() {
    let v = FoldCollectCfg::call(vec![1u8, 2], 3u8);
    assert_eq!(v, vec![1u8, 2, 3]);
    let e = FoldCollectCfg::call(Vec::new(), "a");
    assert_eq!(e, vec!["a"]);
}

#[test]
fn stat_pack_many_changes_add_up() {
    let mut p: StatPack<i64> = StatPack::new(7);
    let ds = [3i64, -10, 100, i64::MAX - 200, -50];
    for d in ds {
        p.add_change(d);
    }
    assert_eq!(*p.get(), 7);
    p.apply_change();
    assert_eq!(*p.get(), 7 + 3 - 10 + 100 + (i64::MAX - 200) - 50);
    p.apply_change();
    assert_eq!(*p.get(), i64::MAX - 150);
}

#[test]
fn algebraic_systems_say_when_a_value_applies() {
    assert!(<AlgebraicSystemAdd as AlgebraicSystem<i64>>::applies(&i64::MAX, &-1));
    assert!(!<AlgebraicSystemAdd as AlgebraicSystem<i64>>::applies(&i64::MAX, &1));
    assert!(<AlgebraicSystemMul as AlgebraicSystem<i32>>::applies(&65536, &-32768));
    assert!(!<AlgebraicSystemMul as AlgebraicSystem<i32>>::applies(&65536, &32768));
}
