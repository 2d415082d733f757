use rar_os::platform_store::{request, Keyboard, Owner, Store, CREATE, EXISTS, INVALID, LIST, NOT_FOUND, OK, QUOTA, READ, WIRE, WRITE};

const A:Owner=Owner{task:0,generation:1};
const B:Owner=Owner{task:10,generation:1};
fn call(s:&mut Store,owner:Owner,op:u8,name:&[u8],data:&[u8])->[u8;WIRE] {
    s.process(owner,&request(op,name,data).unwrap())
}
#[test]
fn real_create_write_read_list() {
    let mut s=Store::new();
    assert_eq!(call(&mut s,A,CREATE,b"alpha",b"")[0],OK);
    assert_eq!(call(&mut s,A,WRITE,b"alpha",b"RAR")[0],OK);
    let got=call(&mut s,A,READ,b"alpha",b""); assert_eq!(got[2],3); assert_eq!(&got[16..19],b"RAR");
    let list=call(&mut s,A,LIST,b"",b""); assert_eq!(list[1],1); assert_eq!(&list[5..10],b"alpha");
}
#[test]
fn namespace_and_generation_are_not_request_controlled() {
    let mut s=Store::new(); call(&mut s,A,CREATE,b"secret",b"");
    assert_eq!(call(&mut s,B,READ,b"secret",b"")[0],NOT_FOUND);
    assert_eq!(call(&mut s,B,LIST,b"",b"")[1],0);
    assert_eq!(call(&mut s,Owner{task:0,generation:2},READ,b"secret",b"")[0],NOT_FOUND);
    assert_eq!(call(&mut s,B,CREATE,b"secret",b"")[0],OK);
    assert_eq!(call(&mut s,A,CREATE,b"secret",b"")[0],EXISTS);
}
#[test]
fn quotas_fail_without_modifying_existing_bytes() {
    let mut s=Store::new();
    for name in [b"a",b"b",b"c",b"d"] { assert_eq!(call(&mut s,A,CREATE,name,b"")[0],OK); }
    assert_eq!(call(&mut s,A,CREATE,b"e",b"")[0],QUOTA);
    assert_eq!(call(&mut s,A,WRITE,b"a",&[1;64])[0],OK);
    assert_eq!(call(&mut s,A,WRITE,b"b",&[2;64])[0],OK);
    assert_eq!(call(&mut s,A,WRITE,b"c",&[3])[0],QUOTA);
    assert_eq!(call(&mut s,A,READ,b"a",b"")[16],1);
    assert_eq!(call(&mut s,A,WRITE,b"a",&[4;32])[0],OK);
    assert_eq!(call(&mut s,A,WRITE,b"c",&[3;32])[0],OK);
}
#[test]
fn malformed_wire_and_paths_rejected() {
    let mut s=Store::new();
    assert_eq!(s.process(A,&[])[0],INVALID);
    for name in [b"/".as_slice(),b"..".as_slice(),b"a/b".as_slice()] {
        assert_eq!(call(&mut s,A,CREATE,name,b"")[0],INVALID);
    }
    let mut r=request(CREATE,b"a",b"").unwrap(); r[127]=1;
    assert_eq!(s.process(A,&r)[0],INVALID);
    r[127]=0; r[1]=255; assert_eq!(s.process(A,&r)[0],INVALID);
    r[1]=1; r[0]=255; assert_eq!(s.process(A,&r)[0],INVALID);
}
#[test]
fn physical_set1_make_break_decoder() {
    let mut k=Keyboard::new(); assert!(!k.feed(0x9e));
    assert!(!k.feed(0xe0)); assert!(!k.feed(0x1e)); assert!(!k.feed(0x9e));
    assert!(!k.feed(0x1e)); assert!(k.feed(0x9e));
}

