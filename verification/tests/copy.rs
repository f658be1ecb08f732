//! Copies of a range, driven over two byte arrays.
use uring_fs::copy::{CopyHandle, CopyRange, CopyStep, COPY_BUF, MAX_CHUNK};
use uring_fs::errno::{Errno, Error};

/// Two files, and whether the kernel copies between them.
struct Disk {
    src: Vec<u8>,
    dst: Vec<u8>,
    kernel: Result<u64, Errno>,
    write_at_most: u64,
}

impl Disk {
    fn new(src: &[u8], dst: &[u8]) -> Disk {
        Disk {
            src: src.to_vec(),
            dst: dst.to_vec(),
            kernel: Ok(u64::MAX),
            write_at_most: u64::MAX,
        }
    }

    fn read(&self, at: u64, want: u64) -> Vec<u8> {
        let from = (at as usize).min(self.src.len());
        let to = (at as usize + want as usize).min(self.src.len());
        self.src[from..to].to_vec()
    }

    fn write(&mut self, at: u64, bytes: &[u8]) {
        let end = at as usize + bytes.len();
        if self.dst.len() < end {
            self.dst.resize(end, 0);
        }
        self.dst[at as usize..end].copy_from_slice(bytes);
    }
}

fn copy_range(d: &mut Disk, off_src: u64, off_dst: u64, len: u64) -> Result<u64, Error> {
    let mut c = CopyRange::new(off_src, off_dst, len);
    let mut buf: Vec<u8> = Vec::new();
    let mut step = c.step();
    loop {
        step = match step {
            CopyStep::Kernel { src, dst, want } => {
                assert!(want <= MAX_CHUNK);
                let did = match d.kernel {
                    Err(e) => Err(e),
                    Ok(most) => {
                        let bytes = d.read(src, want.min(most));
                        d.write(dst, &bytes);
                        Ok(bytes.len() as u64)
                    }
                };
                c.copied(did)
            }
            CopyStep::Fill { src, want } => {
                assert!(want <= COPY_BUF);
                buf = d.read(src, want);
                c.filled(Ok(buf.len() as u64))
            }
            CopyStep::Drain { dst, from, want } => {
                let n = want.min(d.write_at_most);
                let bytes = buf[from as usize..(from + n) as usize].to_vec();
                d.write(dst, &bytes);
                c.drained(Ok(n))
            }
            CopyStep::Done(r) => return r,
        };
    }
}

#[test]
fn a_copy_reports_what_moved_not_what_was_asked_for() {
    let body: Vec<u8> = (0..40_000u32).flat_map(|i| i.to_le_bytes()).collect();
    let mut d = Disk::new(&body, b"");
    // Offer far more than the source holds: one call, whole range.
    let moved = copy_range(&mut d, 0, 0, body.len() as u64 * 4).expect("copy");
    assert_eq!(
        moved,
        body.len() as u64,
        "the count is what the source had, not what was requested"
    );
    assert_eq!(d.dst, body, "byte for byte");
}

#[test]
fn a_copy_honours_both_offsets() {
    let mut d = Disk::new(b"0123456789", b"..........");
    let moved = copy_range(&mut d, 2, 5, 3).expect("copy");
    assert_eq!(moved, 3);
    assert_eq!(&d.dst, b".....234..", "the window landed where it was aimed");
}

#[test]
fn a_copy_goes_on_through_a_buffer_where_the_kernel_will_not() {
    let body: Vec<u8> = (0..2_500_000u32).map(|i| i as u8).collect();
    let mut d = Disk::new(&body, b"");
    d.kernel = Err(Errno::EXDEV);
    d.write_at_most = 700_001;
    let moved = copy_range(&mut d, 0, 0, u64::MAX).expect("copy");
    assert_eq!(moved, 2_500_000);
    assert_eq!(d.dst, body);
}

#[test]
fn a_copy_goes_on_where_it_stopped_and_reports_a_failure() {
    let mut c = CopyRange::new(0, 0, 10);
    assert!(matches!(c.copied(Err(Errno::EIO)), CopyStep::Done(Err(Error::Errno(Errno::EIO)))));
    // A short transfer goes on where it stopped.
    let mut c = CopyRange::new(100, 200, 10);
    let step = c.copied(Ok(4));
    assert!(matches!(step, CopyStep::Kernel { src: 104, dst: 204, want: 6 }));
    assert!(matches!(c.copied(Ok(6)), CopyStep::Done(Ok(10))));
    // Once bytes have moved, another filesystem is an error like any other.
    let mut c = CopyRange::new(0, 0, 10);
    c.copied(Ok(4));
    assert!(matches!(c.copied(Err(Errno::EXDEV)), CopyStep::Done(Err(Error::Errno(Errno::EXDEV)))));
    // A write that moves nothing would never end.
    let mut c = CopyRange::new(0, 0, 10);
    c.copied(Err(Errno::EXDEV));
    assert!(matches!(c.filled(Ok(10)), CopyStep::Drain { dst: 0, from: 0, want: 10 }));
    assert!(matches!(c.drained(Ok(0)), CopyStep::Done(Err(Error::Errno(Errno::EIO)))));
}

#[test]
fn one_kernel_copy_is_bounded() {
    let c = CopyRange::new(0, 0, u64::MAX);
    assert!(matches!(c.step(), CopyStep::Kernel { want: MAX_CHUNK, .. }));
    assert_eq!(MAX_CHUNK, 0x7FFF_F000);
    assert_eq!(COPY_BUF, 1 << 20);
}

#[test]
fn an_empty_copy_is_answered_at_once() {
    match CopyHandle::<u32>::begin(0) {
        Some(h) => assert!(matches!(h.wait(None), Ok(0))),
        None => panic!("nothing to copy"),
    }
    assert!(CopyHandle::<u32>::begin(1).is_none());
    let h = CopyHandle::Pending(5u32);
    assert!(matches!(h.wait(None), Err(Error::Errno(Errno::ECONNABORTED))));
    let h = CopyHandle::Pending(5u32);
    assert!(matches!(h.wait(Some(Ok(9))), Ok(9)));
}
