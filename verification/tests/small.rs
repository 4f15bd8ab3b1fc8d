use kernel::consts::PHY_MEM_OFFSET;
use kernel::fs::fcntl::{OpenFlags, O_CREATE, O_RDONLY, O_RDWR, O_TRUNC, O_WRONLY};
use kernel::fs::pipe::{PipeRingBuffer, RING_BUFFER_SIZE};
use kernel::mm::addr::{Paddr, PageAlign, Vaddr};
use kernel::mm::bitmap::Bitmap;
use kernel::trap::TrapFrame;

#[test]
fn addr_test() {
    let paddr = Paddr::from(0x1000);
    assert_eq!(paddr, Paddr(0x1000));
    let vaddr = Vaddr::from(0x1000 + PHY_MEM_OFFSET);
    assert_eq!(vaddr, Vaddr(0x1000 + PHY_MEM_OFFSET));
    assert!(paddr.is_align());
    assert!(!((paddr + 2).is_align()));
    assert!((paddr + 2).is_align_n(2));
    assert!(!((paddr + 2).is_align_n(10)));
    assert_eq!(
        {
            let n: Vaddr = paddr.into();
            n
        },
        vaddr
    );
    assert_eq!(
        {
            let n: Paddr = vaddr.into();
            n
        },
        paddr
    );
    assert_eq!(
        {
            let mut n = Paddr(0x1024);
            n.align();
            n
        },
        Paddr(0x1000)
    );
    assert_eq!(
        {
            let mut n = Vaddr(0x1024);
            n.align();
            n
        },
        Vaddr(0x1000)
    );
    assert_eq!(Paddr(0x1001).floor(), Paddr(0x1000));
    assert_eq!(Paddr(0x1001).ceil(), Paddr(0x2000));
    assert_eq!(Paddr(0x1000).floor(), Paddr(0x1000));
    assert_eq!(Paddr(0x1000).ceil(), Paddr(0x1000));
    assert_eq!(Vaddr(0x1001).floor(), Vaddr(0x1000));
    assert_eq!(Vaddr(0x1001).ceil(), Vaddr(0x2000));
    assert_eq!(Vaddr(0x1000).floor(), Vaddr(0x1000));
    assert_eq!(Vaddr(0x1000).ceil(), Vaddr(0x1000));
    assert_eq!(
        {
            let mut v = Vaddr(0x1003);
            v.sub_assign(3);
            v
        },
        Vaddr(0x1000)
    );
    assert_eq!(
        {
            let mut v = Paddr(0x1003);
            v.sub_assign(3);
            v
        },
        Paddr(0x1000)
    );
    assert_eq!(
        {
            let mut v = Vaddr(0x1010);
            v.add_assign(1);
            v
        },
        Vaddr(0x1011)
    );
    assert_eq!(
        {
            let mut v = Paddr(0x1010);
            v.add_assign(1);
            v
        },
        Paddr(0x1011)
    );
    assert_eq!(
        {
            let mut v = Vaddr(0x1010);
            v.div_assign(4096);
            v
        },
        Vaddr(0x1)
    );
    assert_eq!(
        {
            let mut v = Paddr(0x1010);
            v.div_assign(4096);
            v
        },
        Paddr(0x1)
    );
    assert_eq!(
        {
            let mut v = Vaddr(0x2000);
            v.div_assign(4096);
            v
        },
        Vaddr(0x2)
    );
    assert_eq!(
        {
            let mut v = Paddr(0x2000);
            v.div_assign(4096);
            v
        },
        Paddr(0x2)
    );
    assert_eq!(
        {
            let mut v = Vaddr(0x1010);
            v.rem_assign(4096);
            v
        },
        Vaddr(0x10)
    );
    assert_eq!(
        {
            let mut v = Paddr(0x1010);
            v.rem_assign(4096);
            v
        },
        Paddr(0x10)
    );
    assert_eq!(
        {
            let mut v = Vaddr(0x2000);
            v.rem_assign(4096);
            v
        },
        Vaddr(0x0)
    );
    assert_eq!(
        {
            let mut v = Paddr(0x2000);
            v.rem_assign(4096);
            v
        },
        Paddr(0x0)
    );
    let va = Vaddr(0x1002);
    let mut cnt: u64 = 0;
    let mut it = va.addr_iter(10, 2);
    while let Some(i) = it.next() {
        assert_eq!(i, va + 2 * cnt);
        cnt += 1;
    }
    assert_eq!(cnt, 5);

    let pa = Paddr(0x1000);
    cnt = 0;
    let mut it = pa.page_addr_iter(pa.get_page_align() as u64 * 20);
    while let Some(i) = it.next() {
        assert_eq!(i, pa + pa.get_page_align() as u64 * cnt);
        cnt += 1;
    }
    assert_eq!(cnt, 20);
}

#[test]
fn bitmap_test() {
    let mut b = Bitmap::new(256);
    let j = b.get(1);
    b.set(1);
    let k = b.get(1);
    b.clear(1);
    let m = b.get(1);
    b.turn_over(1);
    b.turn_over(2);
    b.turn_over(1);
    assert_eq!(j, false);
    assert_eq!(k, true);
    assert_eq!(m, false);
    assert_eq!(b.get(1), false);
    assert_eq!(b.get(2), true);
    assert_eq!(b.get(3), false);
}

#[test]
fn a_bitmap_grows_when_a_bit_beyond_its_end_is_set() {
    let mut b = Bitmap::new(8);
    let cap = b.cap();
    assert!(cap >= 8);
    b.set(cap + 3);
    assert!(b.cap() > cap + 3);
    assert!(b.get(cap + 3));
    assert!(!b.get(cap + 2));
    assert!(!b.get(0));
}

#[test]
fn a_ring_gives_back_what_was_written_in_the_same_order() {
    let mut ring = PipeRingBuffer::new();
    assert_eq!(ring.available_read(), 0);
    assert_eq!(ring.available_write(), RING_BUFFER_SIZE);
    assert_eq!(ring.write(&[1, 2, 3]), 3);
    assert_eq!(ring.available_read(), 3);
    assert_eq!(ring.available_write(), RING_BUFFER_SIZE - 3);
    assert_eq!(ring.read_byte(), 1);
    ring.write_byte(4);
    let mut buf = vec![9u8; 2];
    assert_eq!(ring.read(&mut buf), 2);
    assert_eq!(buf, vec![2, 3]);
    let mut buf = vec![9u8; 4];
    assert_eq!(ring.read(&mut buf), 1);
    assert_eq!(buf, vec![4, 9, 9, 9]);
    assert_eq!(ring.read(&mut buf), 0);
    assert_eq!(ring.available_read(), 0);
}

#[test]
fn a_ring_takes_no_more_than_it_has_room_for() {
    let mut ring = PipeRingBuffer::new();
    let data: Vec<u8> = (0..2000u32).map(|i| (i % 251) as u8).collect();
    assert_eq!(ring.write(&data[..1000]), 1000);
    let mut first = vec![0u8; 600];
    assert_eq!(ring.read(&mut first), 600);
    assert_eq!(&first[..], &data[..600]);
    // the ring wraps round its end
    assert_eq!(ring.write(&data[1000..]), RING_BUFFER_SIZE - 400);
    assert_eq!(ring.available_write(), 0);
    assert_eq!(ring.available_read(), RING_BUFFER_SIZE);
    assert_eq!(ring.write(&[7]), 0);
    let mut rest = vec![0u8; RING_BUFFER_SIZE + 10];
    assert_eq!(ring.read(&mut rest), RING_BUFFER_SIZE);
    assert_eq!(&rest[..RING_BUFFER_SIZE], &data[600..600 + RING_BUFFER_SIZE]);
    assert_eq!(ring.available_read(), 0);
    assert_eq!(ring.available_write(), RING_BUFFER_SIZE);
}

#[test]
fn a_trap_frame_carries_arguments_and_result() {
    let mut frame = TrapFrame::new_empty();
    assert_eq!(frame.sepc, 0);
    assert_eq!(frame.x31, 0);
    frame.x10 = 10;
    frame.x11 = 11;
    frame.x12 = 12;
    frame.x13 = 13;
    frame.x14 = 14;
    frame.x15 = 15;
    assert_eq!(
        (frame.arg0(), frame.arg1(), frame.arg2(), frame.arg3(), frame.arg4(), frame.arg5()),
        (10, 11, 12, 13, 14, 15)
    );
    frame.ok();
    assert_eq!(frame.arg0(), 0);
    frame.ret(77);
    assert_eq!(frame.x10, 77);
    frame.err();
    assert_eq!(frame.x10 as isize, -1);
    assert_eq!(frame.x11, 11);
}

#[test]
fn addresses_are_aligned_to_pages() {
    use_align();
}

fn use_align() {
    assert_eq!(kernel::utils::addr_page_align_lower(0x1000), 0x1000);
    assert_eq!(kernel::utils::addr_page_align_lower(0x1001), 0x1000);
    assert_eq!(kernel::utils::addr_page_align_lower(0x2fff), 0x2000);
    assert_eq!(kernel::utils::addr_page_align_lower(0xfff), 0);
    assert_eq!(kernel::utils::addr_page_align_upper(0x1000), 0x1000);
    assert_eq!(kernel::utils::addr_page_align_upper(0x1001), 0x2000);
    assert_eq!(kernel::utils::addr_page_align_upper(0x2fff), 0x3000);
    assert_eq!(kernel::utils::addr_page_align_upper(0), 0);
    assert_eq!(kernel::utils::addr_page_align_upper(u64::MAX - 4095), u64::MAX - 4095);
}

#[test]
fn open_flags_say_what_may_be_done() {
    let read_only = OpenFlags { bits: O_RDONLY };
    assert!(read_only.readable() && !read_only.writeable() && !read_only.readwriteable());
    let write_only = OpenFlags { bits: O_WRONLY | O_CREATE };
    assert!(!write_only.readable() && write_only.writeable() && !write_only.readwriteable());
    let both = OpenFlags { bits: O_RDWR | O_TRUNC };
    assert!(both.readable() && both.writeable() && both.readwriteable());
    assert!(both.contains(O_TRUNC) && !both.contains(O_CREATE));
}
