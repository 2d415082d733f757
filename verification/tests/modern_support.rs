use rar_os::modern_model::{Error, Runtime};
use rar_os::modern_support::{
    framebuffer_span, next, receive, stage_metadata, staging_buffer, tick, user_buffer, user_return, CpuState,
    DeviceProfile, UserRange, TASKS,
};

#[test]
fn actual_user_return_check_respects_initial_and_trial_stack_bounds(){
    let rx=UserRange{start:0x401000,end:0x402000,writable:false,executable:true};
    for end in [0x604000,0x610000]{
        for rsp in [0x600000,end]{assert!(user_return(&[rx],end,rsp,rx.start,0x1b,0x23,[0;4]));}
        for rsp in [0x5fffff,end+1,u64::MAX]{assert!(!user_return(&[rx],end,rsp,rx.start,0x1b,0x23,[0;4]));}
    }
    assert!(!user_return(&[rx],0x604000,0x608000,rx.start,0x1b,0x23,[0;4]));
    assert!(user_return(&[rx],0x610000,0x608000,rx.start,0x1b,0x23,[0;4]));
    for (end,rip,cs,ss,segments) in [(0x604001,rx.start,0x1b,0x23,[0;4]),
        (0x604000,rx.end,0x1b,0x23,[0;4]),(0x604000,rx.start,8,0x23,[0;4]),
        (0x604000,rx.start,0x1b,16,[0;4]),(0x604000,rx.start,0x1b,0x23,[16;4])]{
        assert!(!user_return(&[rx],end,0x600000,rip,cs,ss,segments));
    }
    assert!(!user_return(&[UserRange{writable:true,..rx}],0x604000,0x600000,rx.start,0x1b,0x23,[0;4]));
}

#[test]
fn sealed_metadata_rejects_unbounded_or_mismatched_resources(){
    let mut b=[0u8;896];b[56..60].copy_from_slice(&512u32.to_le_bytes());
    b[60..64].copy_from_slice(&8192u32.to_le_bytes());b[64]=7;b[72]=2;
    b[288..320].fill(1);b[232]=100;b[240..244].copy_from_slice(&16384u32.to_le_bytes());
    assert_eq!(stage_metadata(&b).unwrap().budget,100);
    for n in [0,383,895]{assert!(stage_metadata(&b[..n]).is_err());}
    for (p,v) in [(56,513u32),(60,0),(60,4097),(60,131073),(64,8),
        (232,0),(232,101),(236,1),(240,65536),(72,0)]{
        let mut bad=b;bad[p..p+4].copy_from_slice(&v.to_le_bytes());
        assert!(stage_metadata(&bad).is_err());
    }
    b[288..320].fill(0);assert!(stage_metadata(&b).is_err());
}

#[test]
fn full_envelope_checked_without_desktop_truncation(){
    let rw=UserRange{start:0x600000,end:0x601000,writable:true,executable:false};
    let ro=UserRange{writable:false,..rw};
    assert!(user_buffer(&[rw],rw.end-152,152,true).is_ok());
    assert!(user_buffer(&[ro],ro.end-152,152,false).is_ok());
    assert!(user_buffer(&[ro],ro.end-152,152,true).is_err());
    for (p,n) in [(rw.end-151,152),(rw.start,153),(rw.start,0),(0,1),(u64::MAX,152)]{
        assert!(user_buffer(&[rw],p,n,true).is_err());
    }
    assert!(user_buffer(&[UserRange{executable:true,..rw}],rw.start,152,true).is_err());
    let high=UserRange{start:0x0000_7fff_ffff_f000,end:0x0000_8000_0000_1000,..rw};
    assert!(user_buffer(&[high],0x0000_8000_0000_0000,1,true).is_err());
    // Adjacent distinct ranges cannot authorize a cross-boundary copy.
    assert!(user_buffer(&[UserRange{end:rw.start+144,..rw},
        UserRange{start:rw.start+144,..rw}],rw.start,152,true).is_err());
}

#[test]
fn staging_read_bound_does_not_expand_ipc_or_cross_ranges(){
    let r=UserRange{start:0x600000,end:0x601000,writable:false,executable:false};
    assert!(staging_buffer(&[r],r.end-512,512).is_ok());
    assert!(user_buffer(&[r],r.end-512,512,false).is_err());
    for (p,n) in [(r.end-511,512),(r.start,513),(r.start,0),(u64::MAX,512),(0,1)]{
        assert!(staging_buffer(&[r],p,n).is_err());
    }
    assert!(staging_buffer(&[UserRange{end:r.start+256,..r},
        UserRange{start:r.start+256,..r}],r.start,512).is_err());
    assert!(staging_buffer(&[UserRange{writable:true,executable:true,..r}],r.start,512).is_err());
}

#[test]
fn bad_receive_cannot_consume_a_real_policy_message(){
    let mut p=Runtime::new();let tx=p.handle(1,4).unwrap();
    let rx=p.handle(4,0).unwrap();
    p.send(1,tx,b"committed").unwrap();
    let range=UserRange{start:0x600000,end:0x601000,writable:true,executable:false};
    for (ptr,len,mode) in [(range.end-151,152,0),(range.start,144,0),
        (range.start,152,2),(u64::MAX,152,0)]{
        assert!(receive(&mut p,4,rx,&[range],ptr,len,mode).is_err());
    }
    assert!(receive(&mut p,4,rx,&[UserRange{writable:false,..range}],
        range.start,152,0).is_err());
    assert!(receive(&mut p,4,rx^(1<<32),&[range],range.start,152,0).is_err());
    let m=receive(&mut p,4,rx,&[range],range.start,152,0).unwrap();
    assert_eq!(m.principal,1);assert_eq!(m.incarnation,1);
    assert_eq!(&m.bytes[..m.length as usize],b"committed");
    assert_eq!(receive(&mut p,4,rx,&[range],range.start,152,1),Err(Error::Empty));
}

#[test]
fn round_robin_and_tick_exhaustion_are_bounded(){
    let mut s=[CpuState::Dead;TASKS];s[0]=CpuState::Blocked;s[15]=CpuState::Runnable;
    assert_eq!(next(&s,0),Ok(15));assert_eq!(next(&s,15),Ok(15));
    s[4]=CpuState::Runnable;assert_eq!(next(&s,15),Ok(4));
    assert_eq!(next(&s,4),Ok(15));assert_eq!(next(&s,16),Err(Error::Invalid));
    s[4]=CpuState::Dead;s[15]=CpuState::Dead;assert_eq!(next(&s,0),Err(Error::Empty));
    assert_eq!(tick(Some(0)),Some(1));
    assert_eq!(tick(Some(i64::MAX as u64-1)),Some(i64::MAX as u64));
    assert_eq!(tick(Some(i64::MAX as u64)),None);assert_eq!(tick(None),None);
}

#[test]
fn fixed_geometry_and_framebuffer_bounds(){
    assert_eq!(DeviceProfile::data().sectors,2+3*64);assert_ne!(DeviceProfile::data().serial,DeviceProfile::system().serial);
    assert_eq!(framebuffer_span(640,480,640,0,0x80000000,1228800),Ok(1228800));
    for (w,h,p,f,b,n) in [(800,480,800,0,0x80000000,2000000),
        (640,600,640,0,0x80000000,2000000),(640,480,639,0,0x80000000,2000000),
        (640,480,u32::MAX,0,0x80000000,u64::MAX),(640,480,640,2,0x80000000,2000000),
        (640,480,640,0,0,2000000),(640,480,640,0,0x80000001,2000000),
        (640,480,640,0,0xfffff000,2000000),(640,480,640,0,0x80000000,100)]{
        assert!(framebuffer_span(w,h,p,f,b,n).is_err());
    }
}
