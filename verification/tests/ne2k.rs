use rar_os::ne2k::{Device, Error, Io, START, STOP};
use rar_os::network::MAX_FRAME;
use crate::Event::{Read as R,Write as W};

const MAC:[u8;6]=[2,0,0,0,0,1];
#[derive(Clone,Debug,PartialEq,Eq)]
enum Event{Read(u8),Write(u8,u8),ReadWord,WriteWord(u16),Reset,Ticks,Yield}
struct Fake{pages:[[u8;16];2],cmd:u8,ram:[u8;32768],address:usize,left:usize,
    ticks:u64,freeze:bool,hang_tx:bool,writes:usize,transmitted:usize,
    trace:std::rc::Rc<std::cell::RefCell<std::vec::Vec<Event>>>,
    calls:usize,fail_at:Option<usize>,reset_stall:bool,rdc_stall:bool,tx_error:bool,
    rollback:bool}
impl Fake{
    fn new()->Self{
        let mut f=Self{pages:[[0;16];2],cmd:0x21,ram:[0;32768],address:0,left:0,
            ticks:0,freeze:false,hang_tx:false,writes:0,transmitted:0,
            trace:Default::default(),calls:0,fail_at:None,reset_stall:false,
            rdc_stall:false,tx_error:false,rollback:false};
        for(i,b)in MAC.into_iter().enumerate(){f.ram[2*i]=b;f.ram[2*i+1]=b;}f
    }
    fn event(&mut self,e:Event)->Result<(),()>{
        self.trace.borrow_mut().push(e);self.calls+=1;
        if self.fail_at==Some(self.calls){Err(())}else{Ok(())}
    }
    fn done(&mut self){if self.left==0&&!self.rdc_stall{self.pages[0][7]|=0x40;}}
    fn inject(&mut self,page:u8,frame:&[u8]){
        let count=frame.len()+4;let pages=(count+4).div_ceil(256);
        let next=START+((usize::from(page-START)+pages)%usize::from(STOP-START))as u8;
        let mut bytes=std::vec![1,next,count as u8,(count>>8)as u8];
        bytes.extend_from_slice(frame);bytes.extend_from_slice(&[0;4]);
        for(i,b)in bytes.into_iter().enumerate(){
            let at=0x4600+((usize::from(page)<<8)-0x4600+i)%(0x8000-0x4600);
            self.ram[at]=b;
        }
        self.pages[1][7]=next;self.pages[0][7]|=1;
    }
}
impl Io for Fake{
    fn read(&mut self,r:u8)->Result<u8,()>{
        self.event(Event::Read(r))?;
        if r>=16{return Err(());}if r==0{return Ok(self.cmd);}
        if self.cmd>>6>1{return Err(());}
        Ok(self.pages[((self.cmd>>6)&1)as usize][r as usize])
    }
    fn write(&mut self,r:u8,v:u8)->Result<(),()>{
        self.event(Event::Write(r,v))?;
        if r>=16||r!=0&&self.cmd>>6>1{return Err(());}self.writes+=1;
        if r==0{
            self.cmd=v;
            if v==0x0a||v==0x12{
                self.address=usize::from(u16::from_le_bytes([self.pages[0][8],self.pages[0][9]]));
                self.left=usize::from(u16::from_le_bytes([self.pages[0][10],self.pages[0][11]]));
            }
            if v==0x26&&!self.hang_tx{
                self.transmitted+=1;self.pages[0][7]|=if self.tx_error{8}else{2};self.cmd=0x22;
            }
        }else if self.cmd&0x40==0&&r==7{self.pages[0][7]&=!v;}
        else{self.pages[((self.cmd>>6)&1)as usize][r as usize]=v;}
        Ok(())
    }
    fn read_word(&mut self)->Result<u16,()>{
        self.event(Event::ReadWord)?;
        if self.cmd!=0x0a||self.left<2||self.address+2>self.ram.len(){return Err(());}
        let w=u16::from_le_bytes([self.ram[self.address],self.ram[self.address+1]]);
        self.address+=2;self.left-=2;self.done();Ok(w)
    }
    fn write_word(&mut self,w:u16)->Result<(),()>{
        self.event(Event::WriteWord(w))?;
        if self.cmd!=0x12||self.left<2||self.address<0x4000||self.address+2>0x4600{return Err(());}
        self.ram[self.address..self.address+2].copy_from_slice(&w.to_le_bytes());
        self.address+=2;self.left-=2;self.done();Ok(())
    }
    fn reset(&mut self)->Result<(),()>{self.event(Event::Reset)?;
        self.pages[0][7]=if self.reset_stall{0}else{0x80};Ok(())}
    fn ticks(&mut self)->Result<u64,()>{self.event(Event::Ticks)?;Ok(self.ticks)}
    fn yield_cpu(&mut self)->Result<(),()>{self.event(Event::Yield)?;
        if self.rollback{self.ticks=self.ticks.saturating_sub(1);}
        else if !self.freeze{self.ticks=self.ticks.saturating_add(1);}Ok(())}
}
#[test]
fn initialize_proves_mac_and_masks_interrupts(){
    let d=Device::initialize(Fake::new(),MAC).unwrap();
    assert_eq!(d.io.pages[0][15],0);assert_eq!(d.io.pages[0][12],0);
    assert_eq!(d.io.pages[0][14],0x49);assert_eq!(&d.io.pages[1][1..7],&MAC);
    let mut bad=Fake::new();bad.ram[1]=3;
    assert!(matches!(Device::initialize(bad,MAC),Err(Error::Identity)));
}
#[test]
fn reset_from_nonzero_page_selects_isr_before_polling(){
    for cmd in [0x62,0xa2,0xe2]{
        let mut f=Fake::new();f.cmd=cmd;f.pages[1][7]=0;
        let d=Device::initialize(f,MAC).unwrap();
        assert_eq!(d.io.cmd,0x22);
        assert_eq!(d.io.pages[0][15],0);
    }
}
#[test]
fn packet_transmit_copies_exact_bytes_and_zero_pads_last_word(){
    let mut d=Device::initialize(Fake::new(),MAC).unwrap();
    let data=[0x5a;61];d.transmit(&data).unwrap();
    assert_eq!(&d.io.ram[0x4000..0x403d],&data);
    assert_eq!(d.io.ram[0x403d],0);assert_eq!(d.io.transmitted,1);
    let writes=d.io.writes;
    assert_eq!(d.transmit(&[0;59]),Err(Error::Invalid));assert_eq!(d.io.writes,writes);
}
#[test]
fn receive_copies_payload_discards_crc_and_wraps_safely(){
    for page in [START+1,STOP-1]{
        let mut d=Device::initialize(Fake::new(),MAC).unwrap();d.next=page;
        let frame=[0x3c;MAX_FRAME];d.io.inject(page,&frame);
        let mut out=[0xff;MAX_FRAME];
        assert_eq!(d.receive(&mut out),Ok(Some(MAX_FRAME)));assert_eq!(out,frame);
        assert_eq!(d.receive(&mut out),Ok(None));
    }
}
#[test]
fn invalid_ring_header_or_overflow_stops_instead_of_following_pointer(){
    for field in 0..4{
        let mut d=Device::initialize(Fake::new(),MAC).unwrap();let page=d.next;
        d.io.inject(page,&[0;60]);d.io.ram[(usize::from(page)<<8)+field]=0xff;
        let mut out=[0xaa;MAX_FRAME];
        assert_eq!(d.receive(&mut out),Err(Error::Corrupt));assert_eq!(out,[0;MAX_FRAME]);
        assert_eq!(d.receive(&mut out),Err(Error::Closed));
    }
    let mut d=Device::initialize(Fake::new(),MAC).unwrap();d.io.pages[0][7]|=0x10;
    assert_eq!(d.receive(&mut [0;MAX_FRAME]),Err(Error::Corrupt));
}
#[test]
fn stalled_clock_and_hung_transmit_are_both_bounded_and_sticky(){
    for freeze in [false,true]{
        let mut d=Device::initialize(Fake::new(),MAC).unwrap();
        d.io.hang_tx=true;d.io.freeze=freeze;
        assert_eq!(d.transmit(&[0;60]),Err(Error::Timeout));
        let writes=d.io.writes;
        assert_eq!(d.transmit(&[0;60]),Err(Error::Closed));assert_eq!(d.io.writes,writes);
        assert_eq!(d.io.cmd,0x21);
    }
}

fn registers(f:&Fake)->std::vec::Vec<Event>{
    f.trace.borrow().iter().filter(|e|matches!(e,Event::Read(_)|Event::Write(_,_)|Event::Reset))
        .cloned().collect()
}
fn remote_read(address:u16,length:u16)->std::vec::Vec<Event>{
    std::vec![W(0,0x22),W(7,0x40),W(8,address as u8),W(9,(address>>8)as u8),
        W(10,length as u8),W(11,(length>>8)as u8),W(0,0x0a),
        R(7),W(7,0x40),W(0,0x22)]
}
#[test]
fn ordered_register_contract_and_data_direction(){
    let mut d=Device::initialize(Fake::new(),MAC).unwrap();
    let mut expected=std::vec![Event::Reset,W(0,0x21),R(7),W(0,0x21),W(14,0x49),
        W(10,0),W(11,0),W(15,0),W(12,0x20),W(13,2),
        W(4,0x40),W(1,0x46),W(2,0x80),W(3,0x46)];
    expected.extend(remote_read(0,12));expected.push(W(0,0x61));
    for(i,b)in MAC.into_iter().enumerate(){expected.push(W(1+i as u8,b));}
    expected.push(W(7,0x47));for r in 8..16{expected.push(W(r,0));}
    for r in 1..7{expected.push(R(r));}
    expected.extend([W(0,0x21),W(7,0xff),W(0,0x22),W(13,0),W(12,0)]);
    assert_eq!(registers(&d.io),expected);
    d.io.trace.borrow_mut().clear();
    d.transmit(&[0x5a;61]).unwrap();
    assert_eq!(registers(&d.io),std::vec![R(0),W(0,0x22),W(7,0x40),
        W(8,0),W(9,0x40),W(10,62),W(11,0),W(0,0x12),R(7),W(7,0x4a),
        W(4,0x40),W(5,61),W(6,0),W(0,0x26),R(7),W(7,0x0a)]);
    d.io.trace.borrow_mut().clear();d.io.inject(0x47,&[0x33;61]);
    assert_eq!(d.receive(&mut [0;MAX_FRAME]),Ok(Some(61)));
    let mut expected=std::vec![W(0,0x22),R(7),W(0,0x62),R(7),W(0,0x22)];
    expected.extend(remote_read(0x4700,4));expected.extend(remote_read(0x4704,62));
    expected.extend([W(3,0x47),W(7,1)]);
    assert_eq!(registers(&d.io),expected);
    // The oracle rejects opposite-direction data operations, not merely their values.
    let mut f=Fake::new();f.cmd=0x12;f.address=0x4700;f.left=2;
    assert_eq!(f.read_word(),Err(()));
    f.cmd=0x0a;f.address=0x4000;f.left=2;assert_eq!(f.write_word(0),Err(()));
}
#[test]
fn every_setup_io_failure_attempts_stop_and_returns_no_device(){
    let d=Device::initialize(Fake::new(),MAC).unwrap();let calls=d.io.calls;
    for fail_at in 1..=calls{
        let mut f=Fake::new();let trace=f.trace.clone();f.fail_at=Some(fail_at);
        assert!(matches!(Device::initialize(f,MAC),Err(Error::Io)),"call {fail_at}");
        assert_eq!(trace.borrow().last(),Some(&Event::Write(0,0x21)));
        assert_eq!(trace.borrow().len(),fail_at+1);
    }
}
fn closed_without_retry(d:&mut Device<Fake>){
    assert!(d.closed);let calls=d.io.calls;
    assert_eq!(d.transmit(&[0;60]),Err(Error::Closed));
    assert_eq!(d.receive(&mut [0;MAX_FRAME]),Err(Error::Closed));
    assert_eq!(d.io.calls,calls);
}
#[test]
fn every_transmit_and_receive_io_failure_is_sticky(){
    for rx in [false,true]{
        let mut base=Device::initialize(Fake::new(),MAC).unwrap();
        if rx{base.io.inject(base.next,&[0x55;61]);}
        let start=base.io.calls;
        if rx{base.receive(&mut [0;MAX_FRAME]).unwrap();}
        else{base.transmit(&[0x55;61]).unwrap();}
        let count=base.io.calls-start;
        for offset in 1..=count{
            let mut d=Device::initialize(Fake::new(),MAC).unwrap();
            if rx{d.io.inject(d.next,&[0x55;61]);}
            d.io.fail_at=Some(d.io.calls+offset);
            if rx{
                let mut out=[0xaa;MAX_FRAME];
                assert_eq!(d.receive(&mut out),Err(Error::Io),"rx {offset}");
                assert_eq!(out,[0;MAX_FRAME]);
            }else{assert_eq!(d.transmit(&[0x55;61]),Err(Error::Io),"tx {offset}");}
            closed_without_retry(&mut d);
            assert_eq!(d.io.cmd,0x21);
        }
    }
}
#[test]
fn receive_exact_count_status_and_pointer_boundaries(){
    for size in [60,61,553,554]{
        for page in [START+1,STOP-1]{
            let mut d=Device::initialize(Fake::new(),MAC).unwrap();d.next=page;
            let frame=std::vec![0x37;size];d.io.inject(page,&frame);
            let mut out=[0xff;MAX_FRAME];assert_eq!(d.receive(&mut out),Ok(Some(size)));
            assert_eq!(&out[..size],&frame);assert!(out[size..].iter().all(|b|*b==0));
        }
    }
    for (field,value) in [(2,63),(2,47),(0,0),(0,3),(0,5),(0,9),(0,17),
        (1,START+1),(1,START+3)]{
        let mut d=Device::initialize(Fake::new(),MAC).unwrap();let page=d.next;
        d.io.inject(page,&[0;60]);let at=usize::from(page)<<8;
        d.io.ram[at+field]=value;
        if field==2&&value==47{d.io.ram[at+3]=2;} // 559 bytes.
        let mut out=[0x77;MAX_FRAME];
        assert_eq!(d.receive(&mut out),Err(Error::Corrupt));
        assert_eq!(out,[0;MAX_FRAME]);closed_without_retry(&mut d);
    }
}

