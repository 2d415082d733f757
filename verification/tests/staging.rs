use rar_os::staging::{
    guard_offset, region, Buffer, Error, Identity, ARENA_PAGES, BUFFER_BYTES, MAX_CHUNK, MAX_INSPECTION, MAX_PACKAGE,
    MIN_INSPECTION, MIN_PACKAGE,
};

fn fill(b:&mut Buffer<'_>,id:Identity,value:u8){
    let chunk=[value;MAX_CHUNK];let mut offset=0;
    while offset<id.length(){
        let n=MAX_CHUNK.min(id.length()-offset);
        b.append(id.seal(),offset,&chunk[..n]).unwrap();offset+=n;
    }
}
#[test]
fn native_region_is_guarded_disjoint_and_bounded(){
    assert_eq!(ARENA_PAGES,9731);
    for arena in [0x2000000,0x4000000,0x1_0000_0000-ARENA_PAGES as u64*4096]{
        let r=region(arena,ARENA_PAGES).unwrap();
        assert_eq!(r.lower_guard,arena+0x2400000);
        assert_eq!(r.start%4096,0);assert_eq!(r.end-r.start,BUFFER_BYTES as u64);
        assert!(guard_offset(r.lower_guard-arena));assert!(guard_offset(r.end-arena));
        assert!(!guard_offset(r.start-arena));assert!(!guard_offset(r.end-arena-4096));
        assert_eq!(r.arena_end-r.end,4096);
        assert_eq!((0..ARENA_PAGES).filter(|&p|guard_offset(p as u64*4096)).count(),2);
    }
    for (arena,pages) in [(0,ARENA_PAGES),(0x2000001,ARENA_PAGES),
        (0x2000000,9216),(0x2000000,ARENA_PAGES-1),(0x2000000,ARENA_PAGES+1),
        (u64::MAX-4095,ARENA_PAGES),(0xfffff000,ARENA_PAGES)]{
        assert_eq!(region(arena,pages),Err(Error::Bounds));
    }
}
#[test]
fn exact_maximum_package_and_padding_survive_seal(){
    assert_eq!(MAX_PACKAGE,2_097_536);assert_eq!(BUFFER_BYTES,2_101_248);
    let mut bytes=vec![0xff;BUFFER_BYTES];
    let mut b=Buffer::new(&mut bytes).unwrap();
    let id=b.begin(7,MAX_PACKAGE).unwrap();fill(&mut b,id,0x42);
    assert_eq!(b.finish(id.seal()),Ok(id));
    assert_eq!(b.view(id.seal()).unwrap().len(),MAX_PACKAGE);
    assert!(b.view(id.seal()).unwrap().iter().all(|&x|x==0x42));
    assert!(b.bytes[MAX_PACKAGE..].iter().all(|&x|x==0));
    assert_eq!(b.reserved(),Some(id));
    assert_eq!(b.append(id.seal(),0,b"x"),Err(Error::State));
    assert_eq!(b.finish(id.seal()),Err(Error::State));
}
#[test]
fn malformed_copy_never_advances_or_changes_bytes(){
    let mut bytes=vec![0;BUFFER_BYTES];let mut b=Buffer::new(&mut bytes).unwrap();
    let id=b.begin(5,MIN_PACKAGE).unwrap();
    assert_eq!(b.view(id.seal()),Err(Error::State));
    assert_eq!(b.finish(id.seal()),Err(Error::Incomplete));
    for (seal,offset,data,error) in [
        (0,0,b"x".as_slice(),Error::Stale),
        (id.seal()+1,0,b"x",Error::Stale),
        (id.seal(),1,b"x",Error::Order),
        (id.seal(),usize::MAX,b"x",Error::Order),
        (id.seal(),0,b"",Error::Bounds),
        (id.seal(),0,&[1;MAX_CHUNK+1],Error::Bounds),
    ]{
        assert_eq!(b.append(seal,offset,data),Err(error));
        assert_eq!(b.copied,0);assert!(b.bytes.iter().all(|&x|x==0));
    }
    b.append(id.seal(),0,&[7;512]).unwrap();
    assert_eq!(b.append(id.seal(),0,b"x"),Err(Error::Order));
    assert_eq!(b.append(id.seal(),512,&[8;512]),Err(Error::Bounds));
    assert_eq!(b.copied,512);
    assert!(b.bytes[..512].iter().all(|&x|x==7));
    assert!(b.bytes[512..].iter().all(|&x|x==0));
    assert_eq!(b.reserved(),Some(id));
}
#[test]
fn begin_is_bounded_one_at_a_time_and_abort_does_not_reuse_seal(){
    for n in [0,BUFFER_BYTES-1,BUFFER_BYTES+1]{
        let mut bytes=vec![5;n];assert!(matches!(Buffer::new(&mut bytes),Err(Error::Bounds)));
        assert!(bytes.iter().all(|&x|x==5));
    }
    let mut bytes=vec![3;BUFFER_BYTES];let mut b=Buffer::new(&mut bytes).unwrap();
    for slot in [0,4,6,8,15,16,usize::MAX]{
        assert_eq!(b.begin(slot,MIN_PACKAGE),Err(Error::Bounds));
    }
    for n in [0,MIN_PACKAGE-1,MAX_PACKAGE+1,usize::MAX]{
        assert_eq!(b.begin(7,n),Err(Error::Bounds));
    }
    let old=b.begin(7,MAX_PACKAGE).unwrap();fill(&mut b,old,0xab);
    assert_eq!(old.seal(),1);
    assert_eq!(b.begin(5,MIN_PACKAGE),Err(Error::Busy));
    assert_eq!(b.clear(old.seal()+1),Err(Error::Stale));
    b.clear(old.seal()).unwrap();assert!(b.bytes.iter().all(|&x|x==0));
    let new=b.begin(5,MIN_PACKAGE).unwrap();
    assert!(new.seal()>old.seal());assert_eq!(new.slot(),5);
    assert_eq!(b.append(old.seal(),0,b"x"),Err(Error::Stale));
    fill(&mut b,new,9);b.finish(new.seal()).unwrap();
    assert!(b.bytes[MIN_PACKAGE..].iter().all(|&x|x==0));
    b.clear(new.seal()).unwrap();assert!(b.bytes.iter().all(|&x|x==0));
    assert_eq!(b.clear(new.seal()),Err(Error::Stale));
}
#[test]
fn full_width_seals_exhaust_without_wrap_or_revival(){
    let mut bytes=vec![0;BUFFER_BYTES];let mut b=Buffer::new(&mut bytes).unwrap();
    b.next=Some((1u64<<32)|1);let id=b.begin(7,MIN_PACKAGE).unwrap();
    assert_eq!(b.append(1,0,b"x"),Err(Error::Stale));
    b.clear(id.seal()).unwrap();b.next=Some(u64::MAX);
    let last=b.begin(5,MIN_PACKAGE).unwrap();assert_eq!(last.seal(),u64::MAX);
    b.clear(last.seal()).unwrap();
    assert_eq!(b.begin(7,MIN_PACKAGE),Err(Error::Exhausted));
    assert_eq!(b.reserved(),None);assert!(b.bytes.iter().all(|&x|x==0));
}
#[test]
fn native_eraser_must_clear_full_buffer_before_empty(){
    let mut bytes=vec![0;BUFFER_BYTES];let mut b=Buffer::new(&mut bytes).unwrap();
    let id=b.begin(7,MIN_PACKAGE).unwrap();b.append(id.seal(),0,&[7;512]).unwrap();
    assert_eq!(b.copying(id.seal()),Ok(id));
    assert_eq!(b.clear_with(id.seal(),|_|{}),Err(Error::State));
    assert_eq!(b.reserved(),Some(id));
    b.clear_with(id.seal(),|bytes|bytes.fill(0)).unwrap();
    assert_eq!(b.reserved(),None);
    let next=b.begin(7,MIN_PACKAGE).unwrap();assert!(next.seal()>id.seal());
    fill(&mut b,next,1);b.finish(next.seal()).unwrap();
    assert_eq!(b.copying(next.seal()),Err(Error::State));
    assert_eq!(b.clear_with(id.seal(),|_|panic!("stale eraser called")),Err(Error::Stale));
}

#[test]
fn inspection_seals_never_become_executable_views(){
    assert_eq!(MAX_INSPECTION,2_097_664);
    assert!(MAX_INSPECTION<BUFFER_BYTES);
    let mut bytes=vec![0;BUFFER_BYTES];let mut b=Buffer::new(&mut bytes).unwrap();
    for n in [MIN_INSPECTION,1024,MAX_INSPECTION]{
        let id=b.begin_inspection(7,n).unwrap();assert!(id.inspection());
        assert_eq!(b.inspection_view(id.seal()),Err(Error::State));
        fill(&mut b,id,0x5a);b.finish(id.seal()).unwrap();
        assert_eq!(b.inspection_view(id.seal()).unwrap().len(),n);
        assert_eq!(b.view(id.seal()),Err(Error::State));
        assert_eq!(b.begin(5,MIN_PACKAGE),Err(Error::Busy));
        b.clear(id.seal()).unwrap();
        assert_eq!(b.inspection_view(id.seal()),Err(Error::Stale));
        assert!(b.bytes.iter().all(|&byte|byte==0));
    }
    let id=b.begin(5,MIN_PACKAGE).unwrap();assert!(!id.inspection());
    fill(&mut b,id,1);b.finish(id.seal()).unwrap();
    assert_eq!(b.inspection_view(id.seal()),Err(Error::State));
    assert_eq!(b.view(id.seal()).unwrap().len(),MIN_PACKAGE);
}
#[test]
fn inspection_bounds_reject_partial_sector_and_do_not_consume_seal(){
    let mut bytes=vec![0;BUFFER_BYTES];let mut b=Buffer::new(&mut bytes).unwrap();
    for length in [0,511,513,896,MAX_INSPECTION-1,MAX_INSPECTION+1,usize::MAX]{
        assert_eq!(b.begin_inspection(7,length),Err(Error::Bounds));
        assert_eq!(b.reserved(),None);assert_eq!(b.next,Some(1));
    }
    for slot in [0,4,6,8,usize::MAX]{
        assert_eq!(b.begin_inspection(slot,512),Err(Error::Bounds));
    }
    let id=b.begin_inspection(5,512).unwrap();
    b.append(id.seal(),0,&[1;511]).unwrap();
    assert_eq!(b.finish(id.seal()),Err(Error::Incomplete));
    assert_eq!(b.inspection_view(id.seal()),Err(Error::State));
    assert_eq!(b.view(id.seal()),Err(Error::State));
    b.clear(id.seal()).unwrap();
    let next=b.begin(7,MIN_PACKAGE).unwrap();assert!(next.seal()>id.seal());
    assert_eq!(b.append(id.seal(),0,b"x"),Err(Error::Stale));
}


