use coopkern::allocator::SimpleAllocator;
use coopkern::mutex::Mutex;

#[test]
fn lock_hands_out_the_stored_value() {
    let mut m = Mutex::new(5u32);
    let g = m.lock();
    assert_eq!(*g.get(), 5);
    m.unlock(g);
}

#[test]
fn release_publishes_the_whole_new_value() {
    let mut m = Mutex::new(5u32);
    let mut g = m.lock();
    g.set(9);
    m.unlock(g);
    let g = m.lock();
    assert_eq!(*g.get(), 9);
    m.unlock(g);
}

#[test]
fn guard_survives_every_exit_path() {
    let mut m = Mutex::new(0u32);
    // an early exit from the holder's scope still hands the guard back
    for k in 0..4u32 {
        let mut g = m.lock();
        if k % 2 == 0 {
            g.set(k);
            m.unlock(g);
            continue;
        }
        m.unlock(g);
    }
    let g = m.lock();
    assert_eq!(*g.get(), 2);
    m.unlock(g);
}

#[test]
fn into_inner_yields_the_guarded_value() {
    let mut m = Mutex::new(7i64);
    let g = m.lock();
    assert_eq!(g.into_inner(), 7);
}

#[test]
fn guarded_allocator_works_through_the_lock() {
    // the global heap of the target: an allocator wrapped in the mutex
    let mut heap = Mutex::new(SimpleAllocator::new());
    let mut g = heap.lock();
    g.get_mut().add_new_node(0x1000, 1024);
    let p = g.get_mut().allocate(64, 8);
    heap.unlock(g);
    assert_eq!(p, Some(0x1000));

    let mut g = heap.lock();
    let q = g.get_mut().allocate(64, 8);
    heap.unlock(g);
    assert_eq!(q, Some(0x1040));
}

#[test]
fn two_acquirers_see_no_half_written_value() {
    // simulated interrupt vs. mainline: each acquirer locks, writes both
    // halves of a pair, releases; an observer never sees a mixed pair
    let mut m = Mutex::new((0u32, 0u32));
    for k in 1..=3u32 {
        let mut g = m.lock();
        g.set((k, k));
        m.unlock(g);

        let g = m.lock();
        let (x, y) = *g.get();
        assert_eq!(x, y);
        m.unlock(g);
    }
}
