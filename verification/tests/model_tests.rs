use wata::model::decode_model;

#[test]
fn decodes_size_and_bitmap() {
    let bytes: Vec<u8> = vec![2, 0b1000_0001];
    let m = decode_model(&bytes);
    assert_eq!(m.r, 2);
    assert!(m.filled[0][0][0]);
    assert!(m.filled[1][1][1]);
    let mut count = 0;
    for x in 0..2 {
        for y in 0..2 {
            for z in 0..2 {
                if m.filled[x][y][z] {
                    count += 1;
                }
            }
        }
    }
    assert_eq!(count, 2);
}

#[test]
fn bit_index_is_x_major() {
    // r = 3: voxel (x, y, z) is bit x * 9 + y * 3 + z; (1, 0, 2) is bit 11.
    let bytes: Vec<u8> = vec![3, 0, 0b0000_1000, 0, 0];
    let m = decode_model(&bytes);
    assert_eq!(m.r, 3);
    assert!(m.filled[1][0][2]);
    assert!(!m.filled[2][0][1]);
}

#[test]
fn empty_model() {
    let bytes: Vec<u8> = vec![0];
    let m = decode_model(&bytes);
    assert_eq!(m.r, 0);
    assert!(m.filled.is_empty());
}
