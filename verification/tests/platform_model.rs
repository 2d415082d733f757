use rar_os::platform_model::{
    context_phase, framebuffer_span, next, user_buffer, Caps, Error, Message, Object, Queue, State, UserRange,
    MESSAGE_BYTES, PORT_READ, QUEUE_DEPTH, RECEIVE, SEND, TASKS,
};

#[test]
fn rights_and_process_local_tables() {
    let mut a = Caps::new();
    let b = Caps::new();
    let h = a.grant(0, Object::Endpoint { task: 1, generation: 1 }, SEND).unwrap();
    assert!(a.resolve(h, SEND).is_ok());
    assert_eq!(a.resolve(h, RECEIVE), Err(Error::Denied));
    assert_eq!(b.resolve(h, SEND), Err(Error::Stale));
    assert!(a.grant(1, Object::Input, SEND).is_err());
    assert!(a.grant(1, Object::Endpoint { task: 255, generation: 1 }, SEND).is_err());
}

#[test]
fn revoked_generation_never_redeems() {
    let mut c = Caps::new();
    let h = c.grant(0, Object::Input, PORT_READ).unwrap();
    c.revoke(0).unwrap();
    let h2 = c.grant(0, Object::Input, PORT_READ).unwrap();
    assert_ne!(h, h2);
    assert_eq!(c.resolve(h, PORT_READ), Err(Error::Stale));
    c.slots[0].generation = u32::MAX;
    c.revoke(0).unwrap();
    assert!(c.grant(0, Object::Input, PORT_READ).is_err());
}

#[test]
fn malformed_handle_rejected() {
    let c = Caps::new();
    for h in [0, 1, u64::MAX, 1u64 << 32, (1u64 << 32) | 9] {
        assert!(c.resolve(h, SEND).is_err());
    }
}

#[test]
fn bounded_fifo_and_sender() {
    let mut q = Queue::new();
    for i in 0..QUEUE_DEPTH {
        q.push(Message::from_kernel_sender(i, 1, &[i as u8]).unwrap()).unwrap();
    }
    assert_eq!(q.push(Message::from_kernel_sender(0, 1, &[9]).unwrap()), Err(Error::Full));
    for i in 0..QUEUE_DEPTH {
        let m = q.pop().unwrap();
        assert_eq!(m.sender, i as u8);
        assert_eq!(m.bytes[0], i as u8);
    }
    assert_eq!(q.pop(), Err(Error::Empty));
    assert!(Message::from_kernel_sender(TASKS, 1, &[1]).is_err());
    assert!(Message::from_kernel_sender(0, 0, &[1]).is_err());
    assert!(Message::from_kernel_sender(0, 1, &[0; MESSAGE_BYTES + 1]).is_err());
    for _ in 0..20 {
        q.push(Message::from_kernel_sender(2, 3, &[4]).unwrap()).unwrap();
        assert_eq!(q.pop().unwrap().generation, 3);
    }
}

#[test]
fn scheduler_round_robin_and_dead_containment() {
    let mut s = [State::Dead; TASKS];
    s[1] = State::Runnable;
    s[4] = State::Runnable;
    assert_eq!(next(&s, 1), Ok(4));
    assert_eq!(next(&s, 4), Ok(1));
    s[4] = State::Blocked;
    assert_eq!(next(&s, 1), Ok(1));
    s[1] = State::Dead;
    assert_eq!(next(&s, 0), Err(Error::Empty));
}

#[test]
fn copy_bounds_readonly_overflow_and_guards() {
    let ranges = [
        UserRange { start: 0x400000, end: 0x401000, writable: false, executable: true },
        UserRange { start: 0x600000, end: 0x601000, writable: true, executable: false },
    ];
    assert!(user_buffer(&ranges, 0x400000, 128, false).is_ok());
    assert!(user_buffer(&ranges, 0x400000, 1, true).is_err());
    assert!(user_buffer(&ranges, 0x600000, 128, true).is_ok());
    for (p, n) in [(0, 1), (0x5fffff, 2), (0x600fff, 2), (u64::MAX, 2), (0x600000, 0), (0x600000, 145)] {
        assert!(user_buffer(&ranges, p, n, true).is_err());
    }
}

#[test]
fn validated_fixed_framebuffer_span() {
    assert_eq!(framebuffer_span(640, 480, 640, 0, 0x80000000, 1228800), Ok(1228800));
    assert!(framebuffer_span(640, 480, 640, 1, 0x80000000, 1228800).is_ok());
}

#[test]
fn malformed_framebuffer_metadata() {
    for (w, h, p, f, b, n) in [
        (800, 480, 800, 0, 0x80000000, 2000000),
        (640, 600, 640, 0, 0x80000000, 2000000),
        (640, 480, 639, 0, 0x80000000, 2000000),
        (640, 480, u32::MAX, 0, 0x80000000, u64::MAX),
        (640, 480, 640, 2, 0x80000000, 2000000),
        (640, 480, 640, 3, 0x80000000, 2000000),
        (640, 480, 640, 0, 0, 2000000),
        (640, 480, 640, 0, 0x80000001, 2000000),
        (640, 480, 640, 0, 0xfffff000, 2000000),
        (640, 480, 640, 0, 0x80000000, 100),
    ] {
        assert!(framebuffer_span(w, h, p, f, b, n).is_err());
    }
}

#[test]
fn timer_phase_evidence_cannot_credit_both_phases() {
    assert_eq!(context_phase(0xeeee, 100, 0xdddd, true, 0x401, 0x3f80, true), 1);
    assert_eq!(context_phase(100, 0xffff, 0xddde, true, 0x401, 0x3f80, true), 2);
    assert_eq!(context_phase(0xeeee, 0xffff, 0xdddd, true, 0x401, 0x3f80, true), 1);
    assert_eq!(context_phase(0xeeee, 0xffff, 0xddde, true, 0x401, 0x3f80, true), 2);
    assert_eq!(context_phase(0xeeee, 0, 0xdddd, true, 0x401, 0x3f80, true), 0);
    assert_eq!(context_phase(0xeeee, 100, 0xdddd, false, 0x401, 0x3f80, true), 0);
    assert_eq!(context_phase(0xeeee, 100, 0xdddd, true, 0x400, 0x3f80, true), 0);
    assert_eq!(context_phase(0xeeee, 100, 0xdddd, true, 0x401, 0x1f80, true), 0);
    assert_eq!(context_phase(0xeeee, 100, 0xdddd, true, 0x401, 0x3f80, false), 0);
}

#[test]
fn one_sender_cannot_fill_shared_service_queue() {
    let mut q = Queue::with_sender_limit(2).unwrap();
    let a = Message::from_kernel_sender(0, 1, &[1]).unwrap();
    let b = Message::from_kernel_sender(10, 1, &[2]).unwrap();
    q.push(a).unwrap();
    q.push(a).unwrap();
    assert_eq!(q.push(a), Err(Error::Full));
    q.push(b).unwrap();
    q.push(b).unwrap();
    assert!(Queue::with_sender_limit(0).is_err());
    assert!(Queue::with_sender_limit(5).is_err());
}
