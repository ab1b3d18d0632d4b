use minigit::find_object_in_objects;
use minigit::find_object_in_pack;
use minigit::CatFile;
use minigit::ObjectError;
use minigit::Sha;

#[test]
fn hex_round_trip() {
    let bytes: [u8; 20] = [
        0x22, 0xd3, 0x51, 0x63, 0x4a, 0xcf, 0x31, 0x13, 0xb7, 0x30, 0xbf, 0xfd, 0x36, 0x38, 0xe1,
        0x4f, 0x62, 0xef, 0x2a, 0xf3,
    ];
    let sha = Sha(bytes);
    let text = sha.to_hex();
    assert_eq!(text, "22d351634acf3113b730bffd3638e14f62ef2af3");
    assert_eq!(Sha::from_hex(&text), Ok(Sha(bytes)));
}

#[test]
fn hex_round_trip_extremes() {
    for b in [0u8, 0x0f, 0xf0, 0xff] {
        let sha = Sha([b; 20]);
        assert_eq!(Sha::from_hex(&sha.to_hex()), Ok(Sha([b; 20])));
    }
    assert_eq!(Sha([0u8; 20]).to_hex(), "0".repeat(40));
}

#[test]
fn from_hex_accepts_either_case() {
    assert_eq!(
        Sha::from_hex("22D351634ACF3113B730BFFD3638E14F62EF2AF3"),
        Sha::from_hex("22d351634acf3113b730bffd3638e14f62ef2af3")
    );
}

#[test]
fn from_hex_length_errors() {
    assert_eq!(
        Sha::from_hex("22d351634acf3113b730bffd3638e14f62ef2af"),
        Err(ObjectError::InvalidHexLength)
    );
    assert_eq!(
        Sha::from_hex("22d351634acf3113b730bffd3638e14f62ef2af300"),
        Err(ObjectError::InvalidHexLength)
    );
    assert_eq!(Sha::from_hex(""), Err(ObjectError::InvalidHexLength));
}

#[test]
fn from_hex_digit_error() {
    assert_eq!(
        Sha::from_hex("g2d351634acf3113b730bffd3638e14f62ef2af3"),
        Err(ObjectError::InvalidHexDigit)
    );
}

#[test]
fn loose_object_location() {
    let sha = Sha::from_hex("22d351634acf3113b730bffd3638e14f62ef2af3").unwrap();
    assert_eq!(
        find_object_in_objects(&sha),
        ("22".to_owned(), "d351634acf3113b730bffd3638e14f62ef2af3".to_owned())
    );
    assert_eq!(find_object_in_pack(&sha), None);
}

#[test]
fn cat_file_location() {
    let req = CatFile { object_name: "305157a396c6858705a9cb625bab219053264ee4".to_owned() };
    assert_eq!(
        req.object_location(),
        Ok(("30".to_owned(), "5157a396c6858705a9cb625bab219053264ee4".to_owned()))
    );
    let upper = CatFile { object_name: "AB5157A396C6858705A9CB625BAB219053264EE4".to_owned() };
    assert_eq!(
        upper.object_location(),
        Ok(("AB".to_owned(), "5157A396C6858705A9CB625BAB219053264EE4".to_owned()))
    );
    let not_hex = CatFile { object_name: "zz5157a396c6858705a9cb625bab219053264ee4".to_owned() };
    assert_eq!(not_hex.object_location(), Err(ObjectError::InvalidHexDigit));
    let bad = CatFile { object_name: "3051".to_owned() };
    assert_eq!(bad.object_location(), Err(ObjectError::InvalidHexLength));
}
