use rar_os::modern_model::{
    Caps, Endpoint, Error, Object, Runtime, StagedImage, State, Trial, HEALTH_CAP, MANAGE, MANAGER_CAP, SELF_CAP, SEND,
    SHELL_CAP, TASKS,
};

fn manager(r:&Runtime)->u64{r.handle(8,MANAGER_CAP).unwrap()}
fn stage(r:&mut Runtime,seal:u64,budget:u32){
    r.staged=Some(StagedImage {seal,digest:[0x42;32],generation:7,signed_budget:budget});
}
fn prepare(r:&mut Runtime,seal:u64,budget:u32)->Trial{
    stage(r,seal,budget);r.begin_trial(8,manager(r),seal).unwrap()
}
fn healthy(r:&mut Runtime)->Trial{
    let t=prepare(r,23,50);
    r.ready(t.endpoint().slot as usize,r.handle(t.endpoint().slot as usize,HEALTH_CAP).unwrap(),t.token()).unwrap();t
}
#[test]
fn trial_has_no_production_authority_and_health_is_one_shot(){
    let mut r=Runtime::new();let t=prepare(&mut r,1,2);let slot=t.endpoint().slot as usize;
    assert_eq!(slot,7);assert_eq!(r.binding(5).unwrap().unwrap().slot,5);
    for h in [0,1,r.handle(slot,HEALTH_CAP).unwrap()]{
        assert!(r.send(slot,h,b"x").is_err());assert!(r.receive(slot,h).is_err());
    }
    let h=r.handle(slot,HEALTH_CAP).unwrap();
    assert!(r.ready(5,h,t.token()).is_err());assert!(r.ready(slot,h,t.token()+1).is_err());
    r.ready(slot,h,t.token()).unwrap();assert!(r.ready(slot,h,t.token()).is_err());
    assert_eq!(r.state(slot),Ok(State::Healthy));assert!(!r.preempt(t.endpoint(),t.token()).unwrap());
}
#[test]
fn only_manager_can_prepare_commit_or_abort(){
    let mut r=Runtime::new();let m=manager(&r);stage(&mut r,1,10);
    for caller in 0..TASKS {if caller!=8 {assert!(r.begin_trial(caller,m,1).is_err());}}
    for handle in [0,u64::MAX,1,m^(1<<32)]{assert!(r.begin_trial(8,handle,1).is_err());}
    assert!(r.begin_trial(8,m,0).is_err());
    let t=r.begin_trial(8,m,1).unwrap();
    assert_eq!(r.begin_trial(8,m,1),Err(Error::Busy));
    assert!(r.cutover(8,m,t.token()).is_err());
    assert!(r.abort(8,m,t.token()+1).is_err());
    r.abort(8,m,t.token()).unwrap();assert!(r.abort(8,m,t.token()).is_err());
    assert!(r.begin_trial(8,m,1).is_err()); // consumed staged authority
}
#[test]
fn staged_identity_and_signed_budget_are_bound_and_consumed(){
    let mut r=Runtime::new();let m=manager(&r);
    assert!(r.begin_trial(8,m,1).is_err()); // nonzero number alone is insufficient
    for budget in [0,101,u32::MAX]{
        stage(&mut r,1,budget);assert_eq!(r.begin_trial(8,m,1),Err(Error::Invalid));
    }
    for budget in [1,2,100]{
        stage(&mut r,10,budget);
        assert!(r.begin_trial(8,m,11).is_err()); // swapped/stale seal
        let t=r.begin_trial(8,m,10).unwrap();
        assert_eq!((t.signed_budget(),t.image_generation(),t.image_digest()),(budget,7,[0x42;32]));
        assert!(r.staged.is_none());
        for tick in 1..=budget{assert_eq!(r.preempt(t.endpoint(),t.token()).unwrap(),tick==budget);}
        assert!(r.begin_trial(8,m,10).is_err()); // cannot recycle consumed seal
    }
}
#[test]
fn named_endpoints_follow_cutover_old_queues_and_handles_do_not(){
    let mut r=Runtime::new();let shell_send=r.handle(0,5).unwrap();
    let old_recv=r.handle(5,SELF_CAP).unwrap();let old_send=r.handle(5,SHELL_CAP).unwrap();
    r.send(0,shell_send,b"old request").unwrap();
    r.send(5,old_send,b"old response").unwrap();
    let t=healthy(&mut r);let c=r.cutover(8,manager(&r),t.token()).unwrap();
    assert_eq!(c.previous,Some(Endpoint {slot:5,incarnation:1}));
    assert_eq!(c.current,t.endpoint());assert_eq!(r.state(5),Ok(State::Vacant));
    assert!(r.receive(5,old_recv).is_err());assert!(r.send(5,old_send,b"stale").is_err());
    assert_eq!(r.receive(0,r.handle(0,SELF_CAP).unwrap()),Err(Error::Empty));
    assert_eq!(r.receive(7,r.handle(7,SELF_CAP).unwrap()),Err(Error::Empty));
    r.send(0,shell_send,b"new request").unwrap();
    let msg=r.receive(7,r.handle(7,SELF_CAP).unwrap()).unwrap();
    assert_eq!(&msg.bytes[..msg.length as usize],b"new request");
    r.send(7,r.handle(7,SHELL_CAP).unwrap(),b"new response").unwrap();
    let msg=r.receive(0,r.handle(0,SELF_CAP).unwrap()).unwrap();
    assert_eq!((msg.principal,msg.incarnation),(5,2));
}
#[test]
fn abort_timeout_and_candidate_fault_preserve_active_service(){
    for mode in 0..3{
        let mut r=Runtime::new();let t=prepare(&mut r,1,1);
        match mode{0=>r.abort(8,manager(&r),t.token()).unwrap(),1=>assert!(r.preempt(t.endpoint(),t.token()).unwrap()),_=>r.fault(t.endpoint()).unwrap()}
        assert_eq!(r.binding(5),Ok(Some(Endpoint {slot:5,incarnation:1})));
        assert_eq!(r.state(7),Ok(State::Vacant));assert!(r.cutover(8,manager(&r),t.token()).is_err());
    }
}
#[test]
fn post_cutover_failure_requires_fresh_incarnation_not_resurrection(){
    let mut r=Runtime::new();let t=healthy(&mut r);r.cutover(8,manager(&r),t.token()).unwrap();
    let old_handle=r.handle(7,SHELL_CAP).unwrap();r.fault(t.endpoint()).unwrap();
    assert_eq!(r.binding(5),Ok(None));
    let recovery=healthy(&mut r);assert_eq!(recovery.endpoint().slot,5);assert_eq!(recovery.endpoint().incarnation,3);
    r.cutover(8,manager(&r),recovery.token()).unwrap();
    assert!(r.send(7,old_handle,b"x").is_err());assert_eq!(r.binding(5),Ok(Some(recovery.endpoint())));
    for i in [0,1,2,3,4,6,8,9]{assert_eq!(r.binding(i).unwrap().unwrap().incarnation,1);}
}
#[test]
fn delayed_old_timer_and_fault_events_cannot_cross_slot_reuse(){
    let mut r=Runtime::new();let old=prepare(&mut r,1,1);
    r.abort(8,manager(&r),old.token()).unwrap();
    let new=prepare(&mut r,2,2);assert_eq!(old.endpoint().slot,new.endpoint().slot);
    assert_eq!(r.preempt(old.endpoint(),old.token()),Err(Error::Stale));
    assert_eq!(r.fault(old.endpoint()),Err(Error::Stale));
    assert_eq!(r.preempt(new.endpoint(),old.token()),Err(Error::Stale));
    assert_eq!(r.state(7),Ok(State::Trial));
    r.ready(7,r.handle(7,HEALTH_CAP).unwrap(),new.token()).unwrap();
    r.cutover(8,manager(&r),new.token()).unwrap();
    assert_eq!(r.fault(old.endpoint()),Err(Error::Stale));
    assert_eq!(r.binding(5),Ok(Some(new.endpoint())));
    r.fault(new.endpoint()).unwrap();let restored=healthy(&mut r);
    r.cutover(8,manager(&r),restored.token()).unwrap();
    assert_eq!(r.fault(Endpoint {slot:5,incarnation:1}),Err(Error::Stale));
    assert_eq!(r.binding(5),Ok(Some(restored.endpoint())));
}
#[test]
fn manager_fault_cancels_trial_and_requires_controlled_recovery(){
    for ready in [false,true]{
        let mut r=Runtime::new();let t=prepare(&mut r,1,2);
        let health=r.handle(7,HEALTH_CAP).unwrap();
        if ready{r.ready(7,health,t.token()).unwrap();}
        r.fault(Endpoint {slot:8,incarnation:1}).unwrap();
        assert!(r.recovery_required());assert!(r.trial.is_none());assert!(r.staged.is_none());
        assert_eq!(r.state(7),Ok(State::Vacant));assert_eq!(r.binding(8),Ok(None));
        assert_eq!(r.binding(5),Ok(Some(Endpoint {slot:5,incarnation:1})));
        assert!(r.ready(7,health,t.token()).is_err());
        r.send(0,r.handle(0,5).unwrap(),b"still alive").unwrap();
    }
}
#[test]
fn exhaustion_and_stale_trial_never_wrap_or_partially_cutover(){
    let mut r=Runtime::new();stage(&mut r,1,1);r.clock=u64::MAX;
    assert_eq!(r.begin_trial(8,manager(&r),1),Err(Error::Exhausted));
    assert_eq!(r.state(7),Ok(State::Vacant));
    r.clock=1;r.next_token=u64::MAX;
    assert_eq!(r.begin_trial(8,manager(&r),1),Err(Error::Exhausted));
    r.next_token=1;let t=healthy(&mut r);r.fault(Endpoint {slot:5,incarnation:1}).unwrap();
    assert!(r.cutover(8,manager(&r),t.token()).is_err());
    r.abort(8,manager(&r),t.token()).unwrap();assert_eq!(r.binding(5),Ok(None));
}
#[test]
fn retired_caps_and_queue_limits_remain_fail_closed(){
    let mut caps=Caps::new();caps.slots[0].generation=u32::MAX;
    let h=caps.grant(0,Object::NamedSend {principal:5},SEND).unwrap();caps.revoke(0).unwrap();
    assert!(caps.resolve(h,SEND).is_err());assert!(caps.grant(0,Object::Manager,MANAGE).is_err());
    let mut r=Runtime::new();let h=r.handle(0,5).unwrap();
    r.send(0,h,b"1").unwrap();r.send(0,h,b"2").unwrap();assert_eq!(r.send(0,h,b"3"),Err(Error::Full));
}

