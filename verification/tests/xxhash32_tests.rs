use lz4_simple::bytes::read_u32_le;
use lz4_simple::bytes::read_vec_u32_le;
use lz4_simple::errors::Lz4Error;
use lz4_simple::xxhash32::XXHash32;

#[test]
fn hello_world() {
    let mut hash = XXHash32::new(0);
    let result = hash.update(&"Hello world".as_bytes().to_vec(), 0, 11);
    assert_eq!(0x9705d437, result.unwrap());
}

#[test]
fn read_vec_u32_le_test() {
    let mut x: Vec<u8> = Vec::new();
    x.resize(4, 0);
    x[0] = 0x12;
    x[1] = 0x34;
    x[2] = 0x56;
    x[3] = 0x78;
    assert_eq!(0x78563412, read_vec_u32_le(&x, 0));
}

#[test]
fn read_u32_le_test() {
    let mut x: [u8; 4] = [0; 4];
    x[0] = 0x12;
    x[1] = 0x34;
    x[2] = 0x56;
    x[3] = 0x78;
    assert_eq!(0x78563412, read_u32_le(&x, 0));
}

#[test]
fn empty_digest() {
    let mut hash = XXHash32::new(0);
    let result = hash.update(&Vec::new(), 0, 0);
    assert_eq!(0x02cc5d05, result.unwrap());
}

#[test]
fn wrong_call_sequence() {
    let data: Vec<u8> = vec![7; 40];
    let mut hash = XXHash32::new(0);
    // a non-final update whose length is not a multiple of 16 poisons the state
    hash.update(&data, 0, 20).unwrap();
    assert_eq!(hash.update(&data, 20, 16), Err(Lz4Error::WrongCallSequence));
    assert_eq!(Lz4Error::WrongCallSequence.message(), "Wrong call sequence");
}

#[test]
fn incremental_digest() {
    let mut data: Vec<u8> = Vec::new();
    for i in 0..40 {
        data.push((i * 17 + 3) as u8);
    }
    let mut one_shot = XXHash32::new(42);
    let expected = one_shot.update(&data, 0, 40).unwrap();
    let mut split = XXHash32::new(42);
    split.update(&data, 0, 16).unwrap();
    split.update(&data, 16, 16).unwrap();
    let got = split.update(&data, 32, 8).unwrap();
    assert_eq!(expected, got);
}
