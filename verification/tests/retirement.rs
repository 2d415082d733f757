use rar_os::retirement::{context, plan, region, retire, Error, Memory, APERTURE, APERTURE_PAGES, STRIDE, TABLE_BYTES, TASKS};

#[test]
fn all_private_slots_are_disjoint_bounded_and_not_aperture(){
    for i in 0..TASKS{
        let p=region(0x2000000,9216,i).unwrap();
        assert_eq!(p,0x2400000+i as u64*STRIDE);
        assert!(p>=APERTURE+APERTURE_PAGES as u64*4096);
        if i+1<TASKS{assert_eq!(p+STRIDE,region(0x2000000,9216,i+1).unwrap());}
    }
    for (a,n,i) in [(0,9216,0),(0x2000001,9216,0),(0x2000000,9215,0),
        (0x2000000,9216,16),(u64::MAX-4095,9216,0),(0xfffff000,9216,0)]{
        assert_eq!(region(a,n,i),Err(Error::Geometry));
    }
}
#[test]
fn current_and_clean_memory_never_retire_or_become_reusable_early(){
    assert_eq!(retire(Memory::Clean),Memory::Clean);
    assert_eq!(retire(Memory::Live),Memory::Retiring);
    assert_eq!(retire(Memory::Retiring),Memory::Retiring);
    let a=0x2000000;let victim=region(a,9216,6).unwrap();
    let leaf=region(a,9216,1).unwrap()+4096;
    let valid=|current,state,root,bottom,top,pte|plan(a,9216,current,6,state,root,bottom,top,pte);
    assert!(valid(1,Memory::Retiring,victim,victim+0x141000,victim+0x151000,leaf).is_ok());
    for state in [Memory::Clean,Memory::Live]{
        assert_eq!(valid(1,state,victim,victim+0x141000,victim+0x151000,leaf),Err(Error::State));
    }
    assert_eq!(valid(6,Memory::Retiring,victim,victim+0x141000,victim+0x151000,leaf),Err(Error::State));
    for (root,bottom,top,pte) in [(victim+4096,victim+0x141000,victim+0x151000,leaf),
        (victim,victim+0x141001,victim+0x151000,leaf),
        (victim,victim+0x141000,victim+0x152000,leaf),
        (victim,victim+0x141000,victim+0x151000,leaf+1),
        (victim,victim+0x141000,victim+0x151000,victim+4096),
        (victim,victim+0x141000,victim+0x151000,leaf-4096),
        (victim,victim+0x141000,victim+0x151000,leaf-4096+TABLE_BYTES)]{
        assert!(valid(1,Memory::Retiring,root,bottom,top,pte).is_err());
    }
}
#[test]
fn explicit_translation_and_interrupt_context(){
    assert_eq!(context(0x2400000,0x2400000,0,2),Ok(()));
    for (root,cr4,flags) in [(0x2400001,0,2),(0x2400000,1<<7,2),
        (0x2400000,1<<17,2),(0x2400000,0,0x202)]{
        assert_eq!(context(root,0x2400000,cr4,flags),Err(Error::Context));
    }
}

