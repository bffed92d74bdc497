use ls_web::targz::targz_of_tar;
use std::io::Read;

#[test]
fn gzip_of_a_tar_decodes_back() {
    let data: Vec<u8> = (0..10_000u32).map(|i| (i * 7 % 251) as u8).collect();
    let gz = targz_of_tar(&data);
    assert_eq!(&gz[..4], &[0x1f, 0x8b, 8, 0]);
    assert_eq!(&gz[4..8], &[0, 0, 0, 0]);
    assert_eq!(gz[9], 255);
    let mut back = Vec::new();
    flate2::read::GzDecoder::new(&gz[..]).read_to_end(&mut back).unwrap();
    assert_eq!(back, data);
}

#[test]
fn gzip_is_the_same_for_the_same_bytes() {
    let data = b"hello hello hello".to_vec();
    assert_eq!(targz_of_tar(&data), targz_of_tar(&data));
    assert_ne!(targz_of_tar(&data), data);
}

#[test]
fn gzip_of_nothing() {
    let gz = targz_of_tar(&Vec::new());
    let mut back = Vec::new();
    flate2::read::GzDecoder::new(&gz[..]).read_to_end(&mut back).unwrap();
    assert!(back.is_empty());
}
