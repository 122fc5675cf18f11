use hoard::layout::{option_blob_layout, BlobLayout};
use hoard::marshal::{zeroed, BlobDecoder, Decode, Encode, Load};
use hoard::offset::{DecodeOffsetError, Offset};
use hoard::option::OptionError;
use hoard::scalars::BoolError;
use hoard::zone::{FatPtr, Missing, ValidateFatPtrError};

fn encode<T: Encode>(value: &T) -> Vec<u8> {
    let mut dst = Vec::new();
    value.encode_blob(&mut dst);
    dst
}

fn decode<T: Decode>(bytes: &[u8]) -> Result<T, T::Error> {
    T::validate_blob(bytes)?;
    Ok(T::decode_blob(bytes))
}

#[test]
fn encodings() {
    let expected = [0u8];
    assert_eq!(encode(&None::<()>), expected);
    assert_eq!(decode::<Option<()>>(&expected).unwrap(), None::<()>);

    let expected = [1u8];
    assert_eq!(encode(&Some(())), expected);
    assert_eq!(decode::<Option<()>>(&expected).unwrap(), Some(()));

    let expected = [0u8, 0];
    assert_eq!(encode(&None::<u8>), expected);
    assert_eq!(decode::<Option<u8>>(&expected).unwrap(), None::<u8>);

    let expected = [1u8, 24];
    assert_eq!(encode(&Some(24u8)), expected);
    assert_eq!(decode::<Option<u8>>(&expected).unwrap(), Some(24u8));

    let expected = [0u8, 0];
    assert_eq!(encode(&None::<Option<()>>), expected);
    assert_eq!(decode::<Option<Option<()>>>(&expected).unwrap(), None::<Option<()>>);

    let expected = [1u8, 0];
    assert_eq!(encode(&Some(None::<()>)), expected);
    assert_eq!(decode::<Option<Option<()>>>(&expected).unwrap(), Some(None::<()>));

    let expected = [1u8, 1];
    assert_eq!(encode(&Some(Some(()))), expected);
    assert_eq!(decode::<Option<Option<()>>>(&expected).unwrap(), Some(Some(())));
}

#[test]
fn mod_test() {
    let blob = [1u8, 7, 0, 0];
    let zone = Missing;
    let mut decoder = BlobDecoder::new(&blob, &zone);
    assert_eq!(*decoder.zone(), Missing);
    let flag: bool = decoder.field_unchecked();
    let byte: u8 = decoder.field_unchecked();
    let rest: Option<u8> = decoder.field_unchecked();
    assert!(flag);
    assert_eq!(byte, 7);
    assert_eq!(rest, None);
    decoder.finish();

    let decoder = BlobDecoder::new(&blob[2..4], &zone);
    let value: Option<u8> = decoder.to_value();
    assert_eq!(value, None);
}

#[test]
fn layouts_compose() {
    let a = BlobLayout::new(3);
    let b = BlobLayout::new_nonzero(8);
    let ab = a.extend(b);
    assert_eq!(ab.size(), 11);
    assert_eq!(ab.niche(), Some((3, 11)));
    let ba = b.extend(a);
    assert_eq!(ba.niche(), Some((0, 8)));
    assert_eq!(BlobLayout::never().size(), 0);
    assert!(!a.has_niche());
}

#[test]
fn option_layout_uses_niche() {
    let with_niche = option_blob_layout(BlobLayout::new_nonzero(8));
    assert_eq!(with_niche.size(), 8);
    assert!(!with_niche.has_niche());
    let without = option_blob_layout(BlobLayout::new(8));
    assert_eq!(without.size(), 9);
    assert_eq!(<Option<Offset>>::blob_layout().size(), 8);
    assert_eq!(<Option<u8>>::blob_layout().size(), 2);
    assert_eq!(<Option<Option<Offset>>>::blob_layout().size(), 9);
}

#[test]
fn niche_option_encodings() {
    let o = Offset::new(3).unwrap();
    let some = encode(&Some(o));
    assert_eq!(some, vec![7, 0, 0, 0, 0, 0, 0, 0]);
    assert_eq!(some.len(), 8);
    let none = encode(&None::<Offset>);
    assert_eq!(none, vec![0; 8]);
    assert_eq!(decode::<Option<Offset>>(&some).unwrap(), Some(o));
    assert_eq!(decode::<Option<Offset>>(&none).unwrap(), None);

    let nested = encode(&Some(None::<Offset>));
    assert_eq!(nested, vec![1, 0, 0, 0, 0, 0, 0, 0, 0]);
    assert_eq!(decode::<Option<Option<Offset>>>(&nested).unwrap(), Some(None));
}

#[test]
fn padding_mutation_is_rejected() {
    let mut none = encode(&None::<u8>);
    none[1] = 5;
    assert_eq!(decode::<Option<u8>>(&none), Err(OptionError::Padding));

    let mut none = encode(&None::<FatPtr<Offset, u8>>);
    assert_eq!(none, vec![0; 9]);
    none[8] = 1;
    assert_eq!(decode::<Option<FatPtr<Offset, u8>>>(&none), Err(OptionError::Padding));
}

#[test]
fn option_errors() {
    assert_eq!(decode::<Option<u8>>(&[2, 0]), Err(OptionError::Discriminant(2)));
    assert_eq!(decode::<Option<bool>>(&[1, 5]), Err(OptionError::Value(BoolError(5))));
    assert_eq!(decode::<Option<()>>(&[7]), Err(OptionError::Discriminant(7)));
    assert_eq!(
        decode::<Option<Offset>>(&[2, 0, 0, 0, 0, 0, 0, 0]),
        Err(OptionError::Value(DecodeOffsetError::Ptr(2)))
    );
}

#[test]
fn bool_validation() {
    assert_eq!(decode::<bool>(&[0]), Ok(false));
    assert_eq!(decode::<bool>(&[1]), Ok(true));
    assert_eq!(decode::<bool>(&[2]), Err(BoolError(2)));
    assert_eq!(encode(&true), vec![1]);
}

#[test]
fn fat_pointer_blobs() {
    let p = FatPtr { raw: Offset::new(2).unwrap(), metadata: 9u8 };
    let bytes = encode(&p);
    assert_eq!(bytes, vec![5, 0, 0, 0, 0, 0, 0, 0, 9]);
    assert_eq!(decode::<FatPtr<Offset, u8>>(&bytes).unwrap(), p);
    let layout = <FatPtr<Offset, u8>>::blob_layout();
    assert_eq!(layout.size(), 9);
    assert_eq!(layout.niche(), Some((0, 8)));

    assert_eq!(
        decode::<FatPtr<Offset, bool>>(&[4, 0, 0, 0, 0, 0, 0, 0, 1]),
        Err(ValidateFatPtrError::Ptr(DecodeOffsetError::Ptr(4)))
    );
    assert_eq!(
        decode::<FatPtr<Offset, bool>>(&[5, 0, 0, 0, 0, 0, 0, 0, 3]),
        Err(ValidateFatPtrError::Metadata(BoolError(3)))
    );
}

#[test]
fn zeroed_checks_every_byte() {
    assert!(zeroed(&[]));
    assert!(zeroed(&[0, 0, 0]));
    assert!(!zeroed(&[0, 0, 1]));
}

#[test]
fn decodable_types_load() {
    let zone = Missing;
    let blob = [1u8, 5];
    let value = <Option<u8> as Load<Missing>>::load_blob(BlobDecoder::new(&blob, &zone));
    assert_eq!(value, Some(5));
}
