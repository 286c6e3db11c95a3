use proof_of_storage::fields::data_field::DataField;
use proof_of_storage::fields::ft253_192::Ft253_192;
use proof_of_storage::fields::{
    convert_byte_vec_to_field_elements_vec, convert_field_elements_vec_to_byte_vec,
    evaluate_field_polynomial_at_point, evaluate_field_polynomial_at_point_with_elevated_degree,
    field_elements_vec_to_file_bytes, is_power_of_two, random_writeable_field_vec, FieldGeneratorIter,
    RandomBytesIterator, WriteableFt63,
};
use proof_of_storage::fields::data_field::{field_vec_to_byte_vec, from_byte_vec};
use proof_of_storage::fields::writable_ft63::{field_vec_to_raw_bytes, raw_bytes_to_field_vec};
use rand::Rng;
use rand_chacha::ChaCha8Rng;
use rand_core::{RngCore, SeedableRng};

fn zero() -> WriteableFt63 {
    WriteableFt63::zero()
}

fn one() -> WriteableFt63 {
    WriteableFt63::one()
}

#[test]
fn test_polynomial_eval() {
    let field_elements = vec![zero(), zero(), zero()];
    let point = one();
    assert_eq!(evaluate_field_polynomial_at_point(&field_elements, &point), zero());

    let field_elements = vec![one(), one(), one()];
    assert_eq!(
        evaluate_field_polynomial_at_point(&field_elements, &point),
        one().add(&one()).add(&one())
    );

    let field_elements = vec![zero(), WriteableFt63::from_u128(1), WriteableFt63::from_u128(2)];
    let point = WriteableFt63::from_u128(2);
    assert_eq!(
        evaluate_field_polynomial_at_point(&field_elements, &point),
        WriteableFt63::from_u128(2 * (2u128.pow(2)) + 2 + 0)
    );
}

#[test]
fn test_polynomial_eval_with_elevated_degree() {
    let two = one().add(&one());
    let field_elements = vec![zero(), zero(), zero()];
    let point = one();
    assert_eq!(
        evaluate_field_polynomial_at_point_with_elevated_degree(&field_elements, &point, 1),
        zero()
    );

    let field_elements = vec![one(), one(), one()];
    assert_eq!(
        evaluate_field_polynomial_at_point_with_elevated_degree(&field_elements, &point, 1),
        one().add(&one()).add(&one())
    );

    let field_elements = vec![zero(), zero(), two];
    let point = two;
    assert_eq!(
        evaluate_field_polynomial_at_point(&field_elements, &point),
        evaluate_field_polynomial_at_point_with_elevated_degree(&[two], &point, 2)
    );

    let field_elements = vec![zero(), zero(), two, two];
    let point = two;
    assert_eq!(
        evaluate_field_polynomial_at_point(&field_elements, &point),
        evaluate_field_polynomial_at_point_with_elevated_degree(&[two, two], &point, 2)
    );
}

#[test]
fn bytes_into_then_out_of_field_elements() {
    const LEN: usize = 999;
    let mut bytes = vec![0u8; LEN];
    let mut rng = rand::thread_rng();
    for byte in bytes.iter_mut() {
        *byte = rng.gen::<u8>();
    }
    let field = convert_byte_vec_to_field_elements_vec::<WriteableFt63>(&bytes);

    let bytes_back = convert_field_elements_vec_to_byte_vec(&field, LEN);

    assert_eq!(bytes, bytes_back);
}

#[test]
fn are_fields_the_same() {
    let mut random = RandomBytesIterator::new();
    let mut bytes = Vec::new();
    for _ in 0..1000 {
        bytes.push(random.next().unwrap());
    }

    let writeable63_elements = from_byte_vec::<WriteableFt63>(&bytes);
    let writeable253_elements = from_byte_vec::<Ft253_192>(&bytes);

    assert_eq!(
        field_vec_to_byte_vec(&writeable63_elements)[..bytes.len()],
        field_vec_to_byte_vec(&writeable253_elements)[..bytes.len()]
    );
}

#[test]
fn compare_iterator_to_normal() {
    const LEN: usize = 999;
    let mut bytes = vec![0u8; LEN];
    let mut rng = rand::thread_rng();
    for byte in bytes.iter_mut() {
        *byte = rng.gen::<u8>();
    }
    let field = convert_byte_vec_to_field_elements_vec::<WriteableFt63>(&bytes.clone());
    let mut iter = FieldGeneratorIter::<WriteableFt63>::new(bytes);
    let mut iter_field: Vec<WriteableFt63> = Vec::new();
    while let Some(f) = iter.next() {
        iter_field.push(f);
    }

    assert_eq!(iter_field, field);
}

#[test]
fn test_type_sizes_are_correct() {
    assert!(Ft253_192::test_type_sizes_are_correct())
}

#[test]
fn into_and_out_of_bytes() {
    let mut seed = ChaCha8Rng::seed_from_u64(1337);
    for _ in 0..1000 {
        let mut random_data = [0u8; 31];
        seed.fill_bytes(&mut random_data);

        let field_element = Ft253_192::from_data_bytes(&random_data);
        let bytes_back = field_element.to_data_bytes();
        assert_eq!(bytes_back, random_data);
        assert_eq!(field_element, Ft253_192::from_data_bytes(&bytes_back));
    }
}

#[test]
fn can_i_use_take_a_billion() {
    let mut iterator = RandomBytesIterator::new();
    let _next = iterator.next();
}

#[test]
fn field_to_file_to_field() {
    let random_field: Vec<WriteableFt63> = random_writeable_field_vec(1);
    let file_bytes = field_elements_vec_to_file_bytes(&random_field);
    let file_as_field: Vec<WriteableFt63> = convert_byte_vec_to_field_elements_vec(&file_bytes);
    assert_eq!(random_field, file_as_field);
}

#[test]
fn max_element_from_bytes() {
    let rng = &mut rand::thread_rng();
    let mut bytes_array = [0u64; 1];
    rng.fill(&mut bytes_array[..]);

    let max_array = [u64::MAX];

    let my_element = WriteableFt63::from_u64_array(bytes_array);
    let true_max_element = zero().sub(&one());
    let test_max_element = WriteableFt63::from_u64_array(max_array);
    assert!(test_max_element.is_err());
    assert_eq!(my_element.is_ok(), bytes_array[0] < 5102708120182849537);
    assert_eq!(true_max_element.to_canonical_u64(), 5102708120182849536);
}

#[test]
fn power_of_two_detection() {
    assert!(is_power_of_two(1));
    assert!(is_power_of_two(2));
    assert!(is_power_of_two(1024));
    assert!(!is_power_of_two(3));
    assert!(!is_power_of_two(1000));
}

#[test]
fn u64_array_round_trip() {
    let element = WriteableFt63::from_u64_array([12345]).unwrap();
    assert_eq!(element.to_u64_array(), [12345]);
    assert!(WriteableFt63::from_u64_array([5102708120182849537]).is_err());
}

#[test]
fn field_arithmetic_values() {
    let a = WriteableFt63::from_u64(10);
    let b = WriteableFt63::from_u64(32);
    assert_eq!(a.add(&b).to_canonical_u64(), 42);
    assert_eq!(a.mul(&b).to_canonical_u64(), 320);
    assert_eq!(b.sub(&a).to_canonical_u64(), 22);
    assert_eq!(a.sub(&b).to_canonical_u64(), 5102708120182849537 - 22);
    assert_eq!(WriteableFt63::from_u64(2).pow(10).to_canonical_u64(), 1024);
}

#[test]
fn short_bytes_pad_the_last_element() {
    let elements = convert_byte_vec_to_field_elements_vec::<WriteableFt63>(&[1, 2, 3, 4, 5, 6, 7, 8]);
    assert_eq!(elements.len(), 2);
    assert_eq!(elements[1].to_data_bytes(), vec![8, 0, 0, 0, 0, 0, 0]);
    assert_eq!(convert_field_elements_vec_to_byte_vec(&elements, 100).len(), 14);
    assert_eq!(convert_field_elements_vec_to_byte_vec(&elements, 8), vec![1, 2, 3, 4, 5, 6, 7, 8]);
}

#[test]
fn file_bytes_drop_trailing_padding() {
    let elements = convert_byte_vec_to_field_elements_vec::<WriteableFt63>(&[9, 9, 9, 9, 9, 9, 9, 5]);
    assert_eq!(field_elements_vec_to_file_bytes(&elements), vec![9, 9, 9, 9, 9, 9, 9, 5]);
}

#[test]
fn raw_bytes_round_trip() {
    let elements: Vec<WriteableFt63> = (0..20u64).map(|i| WriteableFt63::from_u64(i * 123_456_789 + 7)).collect();
    let raw = field_vec_to_raw_bytes(&elements);
    assert_eq!(raw.len(), 8 * elements.len());
    assert_eq!(raw_bytes_to_field_vec(&raw), elements);
}

#[test]
fn raw_bytes_are_little_endian_values() {
    let raw = field_vec_to_raw_bytes(&[WriteableFt63::from_u64(1), WriteableFt63::from_u64(0x0102)]);
    assert_eq!(raw, vec![1u8, 0, 0, 0, 0, 0, 0, 0, 2, 1, 0, 0, 0, 0, 0, 0]);
    let short = raw_bytes_to_field_vec(&[5u8, 1]);
    assert_eq!(short, vec![WriteableFt63::from_u64(0x0105)]);
}

#[test]
fn ft253_data_bytes_round_trip_at_the_top() {
    for fill in [0x00u8, 0x20, 0x21, 0x7f, 0xff] {
        let data = vec![fill; 31];
        let element = Ft253_192::from_data_bytes(&data);
        assert_eq!(element.to_data_bytes(), data);
    }
}
