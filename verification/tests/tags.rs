use lambo::tags::power;
use lambo::tags::ArithmeticTag;
use lambo::tags::ArithmeticValue;
use lambo::tags::BytesOpTag;
use lambo::tags::ConstructorTag;
use lambo::tags::HelperFunctionTag;
use lambo::tags::IOTag;

#[test]
fn arithmetic_takes_what_and_to() {
    assert_eq!(ArithmeticTag::Add.argument_names(), vec!["what", "to"]);
    assert_eq!(ArithmeticTag::Eq.argument_names(), vec!["what", "to"]);
}

#[test]
fn helpers_name_their_arguments() {
    assert_eq!(HelperFunctionTag::CreateConstructor.argument_names(), vec!["arity"]);
    assert_eq!(
        HelperFunctionTag::Match.argument_names(),
        vec!["constructor", "transform", "fallback", "value"]
    );
}

#[test]
fn io_tags_name_their_arguments() {
    assert!(IOTag::ReadLine.argument_names().is_empty());
    assert_eq!(IOTag::Print.argument_names(), vec!["bytes"]);
    assert_eq!(IOTag::Flatmap.argument_names(), vec!["transform", "io"]);
}

#[test]
fn byte_operations_name_their_arguments() {
    assert_eq!(BytesOpTag::New.argument_names(), vec!["size"]);
    assert_eq!(BytesOpTag::Get.argument_names(), vec!["index", "bytes"]);
    assert_eq!(BytesOpTag::Store.argument_names(), vec!["index", "value", "bytes"]);
    assert_eq!(BytesOpTag::Length.argument_names(), vec!["bytes"]);
    assert_eq!(BytesOpTag::Push.argument_names(), vec!["value", "bytes"]);
    assert_eq!(BytesOpTag::Pop.argument_names(), vec!["bytes"]);
}

#[test]
fn custom_tags_have_one_name_per_argument() {
    let tag = ConstructorTag::CustomTag { uid: 4, arity: 3 };
    assert_eq!(tag.argument_names(), vec!["param", "param", "param"]);
    assert_eq!(tag.arity(), 3);
    assert_eq!(ConstructorTag::CustomTag { uid: 0, arity: 0 }.arity(), 0);
}

#[test]
fn arity_is_the_number_of_argument_names() {
    let tags = [
        ConstructorTag::IO(IOTag::ReadLine),
        ConstructorTag::IO(IOTag::Print),
        ConstructorTag::IO(IOTag::Flatmap),
        ConstructorTag::Arithmetic(ArithmeticTag::Add),
        ConstructorTag::HelperFunction(HelperFunctionTag::CreateConstructor),
        ConstructorTag::HelperFunction(HelperFunctionTag::Match),
        ConstructorTag::CustomTag { uid: 1, arity: 5 },
    ];
    for tag in tags {
        assert_eq!(tag.arity(), tag.argument_names().len());
    }
    assert_eq!(ConstructorTag::HelperFunction(HelperFunctionTag::Match).arity(), 4);
    assert_eq!(ConstructorTag::Arithmetic(ArithmeticTag::Pow).arity(), 2);
}

#[test]
fn from_str_knows_the_built_in_names() {
    assert_eq!(
        ConstructorTag::from_str("#match"),
        Some(ConstructorTag::HelperFunction(HelperFunctionTag::Match))
    );
    assert_eq!(
        ConstructorTag::from_str("#constructor"),
        Some(ConstructorTag::HelperFunction(HelperFunctionTag::CreateConstructor))
    );
    assert_eq!(ConstructorTag::from_str("=num"), Some(ConstructorTag::Arithmetic(ArithmeticTag::Eq)));
    assert_eq!(ConstructorTag::from_str("+"), Some(ConstructorTag::Arithmetic(ArithmeticTag::Add)));
    assert_eq!(ConstructorTag::from_str("-"), Some(ConstructorTag::Arithmetic(ArithmeticTag::Sub)));
    assert_eq!(ConstructorTag::from_str("*"), Some(ConstructorTag::Arithmetic(ArithmeticTag::Mul)));
    assert_eq!(ConstructorTag::from_str("/"), Some(ConstructorTag::Arithmetic(ArithmeticTag::Div)));
    assert_eq!(ConstructorTag::from_str("^"), Some(ConstructorTag::Arithmetic(ArithmeticTag::Pow)));
    assert_eq!(ConstructorTag::from_str("#io_print"), Some(ConstructorTag::IO(IOTag::Print)));
    assert_eq!(ConstructorTag::from_str("#io_readline"), Some(ConstructorTag::IO(IOTag::ReadLine)));
    assert_eq!(ConstructorTag::from_str("#io_flatmap"), Some(ConstructorTag::IO(IOTag::Flatmap)));
}

#[test]
fn from_str_knows_no_other_name() {
    assert_eq!(ConstructorTag::from_str(""), None);
    assert_eq!(ConstructorTag::from_str("match"), None);
    assert_eq!(ConstructorTag::from_str("++"), None);
    assert_eq!(ConstructorTag::from_str("x"), None);
}

#[test]
fn only_arithmetic_and_helpers_compute() {
    assert!(!ConstructorTag::Arithmetic(ArithmeticTag::Add).is_value());
    assert!(!ConstructorTag::HelperFunction(HelperFunctionTag::Match).is_value());
    assert!(!ConstructorTag::HelperFunction(HelperFunctionTag::CreateConstructor).is_value());
    assert!(ConstructorTag::CustomTag { uid: 0, arity: 2 }.is_value());
    assert!(ConstructorTag::IO(IOTag::Print).is_value());
    assert!(ConstructorTag::IO(IOTag::Flatmap).is_value());
}

#[test]
fn add_is_the_sum() {
    assert_eq!(ArithmeticTag::Add.compute(2, 3), Ok(ArithmeticValue::Number(5)));
    assert!(ArithmeticTag::Add.compute(usize::MAX, 1).is_err());
}

#[test]
fn sub_takes_the_first_from_the_second_and_stops_at_zero() {
    assert_eq!(ArithmeticTag::Sub.compute(3, 5), Ok(ArithmeticValue::Number(2)));
    assert_eq!(ArithmeticTag::Sub.compute(5, 3), Ok(ArithmeticValue::Number(0)));
    assert_eq!(ArithmeticTag::Sub.compute(4, 4), Ok(ArithmeticValue::Number(0)));
}

#[test]
fn mul_is_the_product() {
    assert_eq!(ArithmeticTag::Mul.compute(6, 7), Ok(ArithmeticValue::Number(42)));
    assert!(ArithmeticTag::Mul.compute(usize::MAX, 2).is_err());
}

#[test]
fn div_divides_the_second_by_the_first() {
    assert_eq!(ArithmeticTag::Div.compute(3, 7), Ok(ArithmeticValue::Number(2)));
    assert_eq!(ArithmeticTag::Div.compute(7, 3), Ok(ArithmeticValue::Number(0)));
    assert!(ArithmeticTag::Div.compute(0, 7).is_err());
}

#[test]
fn pow_raises_the_second_to_the_first() {
    assert_eq!(ArithmeticTag::Pow.compute(3, 2), Ok(ArithmeticValue::Number(8)));
    assert_eq!(ArithmeticTag::Pow.compute(2, 3), Ok(ArithmeticValue::Number(9)));
    assert_eq!(ArithmeticTag::Pow.compute(0, 9), Ok(ArithmeticValue::Number(1)));
    assert_eq!(ArithmeticTag::Pow.compute(0, 0), Ok(ArithmeticValue::Number(1)));
    assert_eq!(ArithmeticTag::Pow.compute(5, 0), Ok(ArithmeticValue::Number(0)));
    assert_eq!(ArithmeticTag::Pow.compute(usize::MAX, 1), Ok(ArithmeticValue::Number(1)));
    assert!(ArithmeticTag::Pow.compute(200, 2).is_err());
}

#[test]
fn power_fits_or_fails() {
    assert_eq!(power(2, 10), Some(1024));
    assert_eq!(power(10, 3), Some(1000));
    assert_eq!(power(2, 63), Some(1usize << 63));
    assert_eq!(power(2, 64), None);
    assert_eq!(power(7, 0), Some(1));
}

#[test]
fn eq_answers_with_a_boolean() {
    assert_eq!(ArithmeticTag::Eq.compute(4, 4), Ok(ArithmeticValue::Boolean(true)));
    assert_eq!(ArithmeticTag::Eq.compute(4, 5), Ok(ArithmeticValue::Boolean(false)));
}
