use cibos::kernel::sync::SpinLock;
use cibos::sync::Mutex;

#[test]
fn lock_grants_mutable_access() {
    let lock = SpinLock::new(0u32);
    {
        let mut g = lock.lock();
        *g.get_mut() += 5;
        g.unlock();
    }
    assert_eq!(*lock.lock().get(), 5);
}

#[test]
fn guard_releases_on_drop() {
    let lock = SpinLock::new(1u32);
    let g = lock.lock();
    assert_eq!(*g.get(), 1);
    g.unlock();
    // Re-acquire succeeds (would deadlock if release failed).
    let g2 = lock.lock();
    assert_eq!(*g2.get(), 1);
}

#[test]
fn lock_guards_access_and_unlocks() {
    let m = Mutex::new(Vec::<u32>::new());
    let mut g = m.lock().unwrap();
    g.get_mut().push(1);
    g.unlock();
    let mut g = m.lock().unwrap();
    g.get_mut().push(2);
    g.unlock();
    let g = m.lock().unwrap();
    assert_eq!(g.get(), &[1, 2]);
}
