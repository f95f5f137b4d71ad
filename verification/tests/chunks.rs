use zebin::chunk::{get_buf, RegionWriter};
use zebin::error::ZebinError;

#[test]
fn chunk_inside_and_outside_storage() {
    let data = [1u8, 2, 3, 4, 5];
    let b = get_buf(&data, 1, 3).ok().unwrap();
    assert_eq!(b.into_slice(), &[2u8, 3, 4]);
    let empty = get_buf(&data, 5, 0).ok().unwrap();
    assert_eq!(empty.into_slice().len(), 0);
    assert_eq!(get_buf(&data, 3, 4).err(), Some(ZebinError::BufferTooSmall { pos: 3, required: 2 }));
    assert_eq!(get_buf(&data, usize::MAX, 1).err(), Some(ZebinError::ArithmeticOverflow { pos: usize::MAX }));
}

#[test]
fn region_writer_claims() {
    let mut w = RegionWriter::new(16, 4);
    assert_eq!(w.capacity(), 16);
    assert_eq!(w.pos(), 4);
    assert_eq!(w.written(), 0);
    assert_eq!(w.claim(4, 8), Ok(12));
    assert_eq!(w.pos(), 12);
    assert_eq!(w.written(), 12);
    // A chunk behind the current position moves nothing back.
    assert_eq!(w.claim(0, 2), Ok(2));
    assert_eq!(w.pos(), 12);
    assert_eq!(w.written(), 12);
    // Past the capacity: refused at the archive position, nothing changes.
    assert_eq!(w.claim(10, 10), Err(ZebinError::BufferTooSmall { pos: 12, required: 4 }));
    assert_eq!(w.pos(), 12);
    assert_eq!(w.read_range(14, 2), Ok(16));
    assert_eq!(w.read_range(14, 3), Err(ZebinError::BufferTooSmall { pos: 14, required: 1 }));
}
