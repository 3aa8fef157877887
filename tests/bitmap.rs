use merkle_distributor::bitmap;
use merkle_distributor::bitmap::{close, initialize, ErrorCode, OwnedBitmap};

fn bm_count_true(bm: &[u8]) -> u64 {
    let mut count = 0u64;
    bm.iter().for_each(|f| {
        for i in 0..8 {
            if f >> i & 1 == 1 {
                count += 1;
            }
        }
    });
    count
}

fn bm_get(bm: &[u8], index: u64) -> bool {
    let (vec_index, bit_index) = (index / 8, index % 8);
    bm[vec_index as usize] >> bit_index & 1 == 1
}

#[test]
pub fn test_bitmap() {
    let vec_len = 5;
    let capacity = vec_len * 8;
    let mut bm = OwnedBitmap {
        owner: [9u8; 32],
        bitmap: vec![0u8; vec_len],
    };

    assert_eq!(
        bm.set(capacity as u64).unwrap_err(),
        ErrorCode::IndexOverflow,
        "index overflow"
    );

    for i in 0..capacity {
        let index = i as u64;
        let mut ret = bm.set(index);
        assert!(ret.is_ok());
        assert!(bm_get(&bm.bitmap, index), "should be true");
        assert_eq!(bm_count_true(&bm.bitmap), index + 1);

        ret = bm.set(index);
        assert!(ret.is_err());
        assert_eq!(ret.unwrap_err(), ErrorCode::AlreadySet);
    }
}

#[test]
fn initialize_clears_every_bit() {
    let bm = initialize(&[1u8; 32], 20);
    assert_eq!(bm.owner, [1u8; 32]);
    assert_eq!(bm.bitmap, vec![0u8, 0u8]);
    assert_eq!(bm.capacity(), 16);
    for i in 0..16u64 {
        assert!(!bm.is_set(i));
    }
}

#[test]
fn set_touches_only_its_bit() {
    let mut bm = initialize(&[1u8; 32], 16);
    assert_eq!(bm.set(10), Ok(()));
    assert_eq!(bm.bitmap, vec![0u8, 4u8]);
    assert!(bm.is_set(10));
    assert!(!bm.is_set(9));
    assert!(!bm.is_set(11));
}

#[test]
fn set_instruction_checks_owner() {
    let mut bm = initialize(&[1u8; 32], 16);
    assert_eq!(bitmap::set(&mut bm, &[2u8; 32], 3), Err(ErrorCode::Unauthorized));
    assert!(!bm.is_set(3));
    assert_eq!(bitmap::set(&mut bm, &[1u8; 32], 3), Ok(()));
    assert!(bm.is_set(3));
    assert_eq!(bitmap::set(&mut bm, &[1u8; 32], 3), Err(ErrorCode::AlreadySet));
    assert_eq!(bitmap::set(&mut bm, &[1u8; 32], 16), Err(ErrorCode::IndexOverflow));
}

#[test]
fn close_checks_owner() {
    let bm = initialize(&[1u8; 32], 8);
    assert_eq!(close(&bm, &[1u8; 32]), Ok(()));
    assert_eq!(close(&bm, &[3u8; 32]), Err(ErrorCode::Unauthorized));
}

#[test]
fn empty_bitmap_has_no_capacity() {
    let mut bm = initialize(&[1u8; 32], 7);
    assert_eq!(bm.capacity(), 0);
    assert_eq!(bm.set(0), Err(ErrorCode::IndexOverflow));
}
