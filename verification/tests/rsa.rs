use std::path::PathBuf;

use zkicao::bigint::BigUint;
use zkicao::rsa::{
    decode_hex, key_from_listing, rsa2048, rsa3072, rsa4096, signature_limbs, ListingError, Size,
};

const MODULUS_2048: &str = "\
BB3924AD91847214EB8D6A14A401D1A0A4E3513A14359841C576870D6E60B97C\
CACF3602F102DEB37084EDA1C7B2B67F1C5CECD29CCBFD14DB6A49A32AC129B5\
30FF0885AB51A06BFFBEB59701B48789CE242A32E9A9F0AC118B0F02E43DFA7C\
04BF1027C044B8327648869EA79D7892A34C94DBFFA197022D507855A56408B2\
AC9FBA6830AEC0F718E96A49287EFA0FF85BF0212DAFE3186228CD609F5587C3\
E756098D88F673B61B36CA78F8A750A06AF3D55CA96C0F238CD7ABA879DDA590\
A5D87952D07DA5B43867E84FDD8536BFDA7BCB3B084161FBC20043E31AC7EEFA\
D3A4851AFE7E74DBE19F8FA3ED41D6A011CAA0843A67A55309BE87C9154E3B7F";

const SIGNATURE_2048: &str = "\
24c4d5f2493ed09b199414f17137d3ca0579bbd08ed0256de11fb6135b46e8fa\
54b8e9e1b3bfe2ab1b14dbd87601e99fd93599ee57ef7a3b4abd8837434db03a\
f5221ee058ee176429f304cf7c91dca56598d8b1ea786b2e111a297b30e825a0\
cf13dd73c3a5866222cc829980c0c9ee721fc3bf19797a12d11a32b264f56132\
701dbe6e05e855579d40572fe98684852533b74f01aa45975cf829325bedfb8b\
5b3176705da430fa57939d32af40d41ca75b68143187458206e8299f1a45ea8b\
9f61fc46fd2b200c4ac4029bf86fdff942edfb764f685394aa83eee1c1403343\
16e15c097e222da2a34bd0078f94a6823613db42bf772a6cbc66fae0d468a70c";

const MODULUS_4096: &str = "\
E3404904E4DDE357D2B2239DCE6269563F2DF9C934CC816EEEE93BBA23F4246C\
D2F3807436A774AA57DB31A5BA83E4C12C33B28317DE49B47B3763E460E28BA6\
A935C2B0BC6BC05EA1FD05072BBBFAFCD922E9092ACC1060C95967F3ADDFC958\
A4A3142F80F7572A0C9C5C1B80BDA8F73360FCBC74C4078F0E85FB854F58D292\
463DD7B0F8B8489BB6F529FBDCA791FECC2B5A2FD3E474D34EE515A828BF66E0\
152D069615C00C03D69A6F607820039FF3B6B7A6348BCC970D0F698DC94EF2F8\
2485D36A82A813BD28A7FC78B4ECC83B222F6ECAE32AFBFAC6C76FE10DBB358D\
5D18F917BDC88DC64211B1338BBDF3F794022DE0D4FEC5E69072448BB23A3161\
3077E493E194D3D301067B446CA8E577C5A282D6F233682DA58C8C1207F1DA70\
B13B86A219B82E9320351AD01E50104965C19D3826BAAD06001F6C2023700C9F\
83FDE9C70D372FA1B4A8C24E107614D6B319F24117BA0EFAC140736904F16C16\
ABAF03512FAABFB2379EDE95FC0333EDB8ECCAAB3576B3F41801CC6D20B79012\
13F1448415EC1E3806B95E54A7C4E4643018BB908AF8F5F427DF3A6FAE633918\
2EA8B7C9DA5FCCE7D0948F1A15415A099C044F751A98378D9EF3F95244D97CEA\
2CCE5257B2C8F0D6777AC8540276C9511F5AC91FD8300B544A6B4F9CF0FA316D\
C819FCDD97BA170E9CDCC1E9E644D1FC9FE743DBBF16D549EB1EBF3B419D4A43";

const SIGNATURE_4096: &str = "\
05fdac5934c55c92101c524a5e3ee4c29fece3502bb48d1344aec5e0fb394f88\
6c32c3ba8438894a4dd53646c7a763120afba07e76ff28b86c7585c45b35f2fb\
8004cda1a7e4a7fb0e0bb162cbf71d28a182f8845e523140c2e29615962354fd\
caa566458cdf24145dd00d256eae052ac03303fc023ecb9936379c5f866a054e\
15f54d6bc231dda3ce21afe9f4b63cb679a1f5dc6124cada5c965b43d019ea73\
164f97e023b8317b03d8765fbd987d602c60788bf0e5c5de41eb88a2251ccc96\
c6e51c6fa75a487f039973d055ea9314275cdbc0e0c29a818d8656d108a7b6e2\
8635b8e1a4faefe2d6e30d0fe4f0ab3fa3701ce22fa199763ac2f7a2eb2c412e\
5e386552c9105d5094b179c6289c9da5ae3f81d889a24f76b8a35edc651c364f\
335978ca4bb12bc48381d0d27f2db53ce9c3861186019b02a6bde4f9b46d4169\
11529763a35737f5922917ab390548957cc0deb6c800a874931c49fe261d7f4a\
987b41505a2612be012bda73dc880ec4245a7592104548d2dd73831378c4b2e7\
cb8f5acae20b59793a6ce912123a75d791a79f238ba559a9f7828ed0321d6a94\
73420a58dc600574d44f6a7594977da7db851b7928fed3ac569b885a513b4fe6\
d28325c6c016e9e0b6b7448505a5e5dca47f127559a60ee9eb4a66d8c687adc0\
bf3dc50bca15fc9a4d8c7b4c703fe86e47203b038354cdb11ebd91154d4a945c";

/// A key as openssl prints it: the exponent in the listing, the modulus on
/// its own line.
fn key_of(modulus_hex: &str, size: Size) -> zkicao::rsa::RsaKey {
    let listing = "Private-Key\npublicExponent: 65537 (0x10001)\n";

    let line = format!("Modulus={modulus_hex}\n");

    match key_from_listing(PathBuf::from("k.pem"), listing, &line, size) {
        Ok(key) => key,
        Err(_) => panic!("openssl's own listing reads as a key"),
    }
}

// A 2048 bit key openssl generated, with its signature over "zkICAO".
#[test]
fn generates_a_key_whose_limbs_round_trip() {
    let key = key_of(MODULUS_2048, rsa2048());

    assert_eq!(key.modulus_limbs().len(), rsa2048().limbs);

    assert_eq!(key.modulus.bit_length(), rsa2048().bits);

    // The reduction parameter is about 2^(2048 + 6) for a 2048 bit modulus,
    // so it must be wider than the modulus and fit the limbs.
    assert!(key.limbs_fit());

    let redc = key.redc_limbs();

    assert_eq!(redc.len(), rsa2048().limbs);

    let signature = signature_limbs(&key, &decode_hex(SIGNATURE_2048));

    assert_eq!(signature.len(), rsa2048().limbs);
}

// The wider key is the one a state may sign with, and every derived value
// has to widen with it: the limbs, the reduction parameter and the
// signature.
#[test]
fn generates_a_four_thousand_ninety_six_bit_key() {
    let key = key_of(MODULUS_4096, rsa4096());

    assert_eq!(key.modulus.bit_length(), rsa4096().bits);

    assert_eq!(key.modulus_limbs().len(), rsa4096().limbs);

    assert!(key.limbs_fit());

    assert_eq!(key.redc_limbs().len(), rsa4096().limbs);

    assert_eq!(
        signature_limbs(&key, &decode_hex(SIGNATURE_4096)).len(),
        rsa4096().limbs
    );
}

#[test]
fn decodes_hex() {
    assert_eq!(decode_hex("00FF10"), vec![0x00, 0xff, 0x10]);
}

#[test]
fn decoding_skips_what_is_not_a_digit() {
    assert_eq!(decode_hex("ab:CD\n0f"), vec![0xab, 0xcd, 0x0f]);

    assert_eq!(decode_hex(""), Vec::<u8>::new());
}

#[test]
fn the_sizes_the_circuits_are_built_for() {
    assert_eq!((rsa2048().bits, rsa2048().limbs), (2048, 18));

    assert_eq!((rsa3072().bits, rsa3072().limbs), (3072, 26));

    assert_eq!((rsa4096().bits, rsa4096().limbs), (4096, 35));
}

fn listing() -> String {
    "Public-Key: (16 bit)\nModulus: 51473 (0xc911)\npublicExponent: 65537 (0x10001)\n".to_string()
}

#[test]
fn reads_a_key_from_what_openssl_prints() {
    let size = Size { bits: 16, limbs: 1 };

    let key = match key_from_listing(PathBuf::from("k.pem"), &listing(), "Modulus=C911\n", size) {
        Ok(key) => key,
        Err(_) => panic!("a good listing"),
    };

    assert_eq!(key.modulus, BigUint::from_be_bytes(&[0xc9, 0x11]));

    assert_eq!(key.modulus_limbs(), vec![0xc911]);

    assert!(key.limbs_fit());

    // floor(2^(2 * 16 + 6) / 0xc911)
    assert_eq!(key.redc_limbs(), vec![(1u128 << 38) / 0xc911]);

    assert_eq!(signature_limbs(&key, &[0x01, 0x02]), vec![0x0102]);
}

#[test]
fn refuses_a_listing_that_does_not_make_the_key() {
    let size = Size { bits: 16, limbs: 1 };

    let other = "publicExponent: 3 (0x3)\n";

    assert!(matches!(
        key_from_listing(PathBuf::from("k.pem"), other, "Modulus=C911", size),
        Err(ListingError::UnsupportedExponent)
    ));

    assert!(matches!(
        key_from_listing(PathBuf::from("k.pem"), &listing(), "C911", size),
        Err(ListingError::NoModulus)
    ));

    assert!(matches!(
        key_from_listing(PathBuf::from("k.pem"), &listing(), "Modulus=C91", size),
        Err(ListingError::OddHexLength)
    ));

    assert!(matches!(
        key_from_listing(PathBuf::from("k.pem"), &listing(), "Modulus=C91100", size),
        Err(ListingError::UnexpectedModulusSize)
    ));
}
