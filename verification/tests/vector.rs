use myelin_geometry::{Point, Vector};

#[test]
#[allow(clippy::eq_op)]
fn is_equal_to_itself() {
    let vector = Vector { x: -129, y: 451 };
    assert_eq!(vector, vector);
}

#[test]
#[allow(clippy::eq_op)]
fn is_equal_to_itself_when_zero() {
    let vector = Vector { x: 0, y: 0 };
    assert_eq!(vector, vector);
}

#[test]
fn is_no_equal_to_other_vector() {
    let vector = Vector { x: 123, y: 890 };
    let different_vector = Vector { x: 124, y: 890 };
    assert!(vector != different_vector);
}

#[test]
fn adds_zero_vector() {
    let original_vector = Vector { x: 12, y: 43 };
    let vector_to_add = Vector { x: 0, y: 0 };
    let expected_vector = original_vector;
    let added_vector = original_vector.add(vector_to_add);
    assert_eq!(expected_vector, added_vector);
}

#[test]
fn adds_other_vector() {
    let original_vector = Vector { x: 12, y: 43 };
    let vector_to_add = Vector { x: 3, y: 1 };
    let expected_vector = Vector { x: 15, y: 44 };
    let added_vector = original_vector.add(vector_to_add);
    assert_eq!(expected_vector, added_vector);
}

#[test]
fn adds_negative_vector() {
    let original_vector = Vector { x: 12, y: 43 };
    let vector_to_add = Vector { x: -10, y: -20 };
    let expected_vector = Vector { x: 2, y: 23 };
    let added_vector = original_vector.add(vector_to_add);
    assert_eq!(expected_vector, added_vector);
}

#[test]
fn adds_to_zero_vector() {
    let original_vector = Vector { x: 12, y: 43 };
    let vector_to_add = Vector { x: -12, y: -43 };
    let expected_vector = Vector { x: 0, y: 0 };
    let added_vector = original_vector.add(vector_to_add);
    assert_eq!(expected_vector, added_vector);
}

#[test]
fn adds_when_negative() {
    let original_vector = Vector { x: -12, y: -43 };
    let vector_to_add = Vector { x: -4, y: -2 };
    let expected_vector = Vector { x: -16, y: -45 };
    let added_vector = original_vector.add(vector_to_add);
    assert_eq!(expected_vector, added_vector);
}

#[test]
fn subtracts_zero_vector() {
    let original_vector = Vector { x: 12, y: 43 };
    let vector_to_subtract = Vector { x: 0, y: 0 };
    let expected_vector = original_vector;
    let subtracted_vector = original_vector.sub(vector_to_subtract);
    assert_eq!(expected_vector, subtracted_vector);
}

#[test]
fn subtracts_other_vector() {
    let original_vector = Vector { x: 12, y: 43 };
    let vector_to_subtract = Vector { x: 3, y: 1 };
    let expected_vector = Vector { x: 9, y: 42 };
    let subtracted_vector = original_vector.sub(vector_to_subtract);
    assert_eq!(expected_vector, subtracted_vector);
}

#[test]
fn subtracts_negative_vector() {
    let original_vector = Vector { x: 12, y: 43 };
    let vector_to_subtract = Vector { x: -10, y: -20 };
    let expected_vector = Vector { x: 22, y: 63 };
    let subtracted_vector = original_vector.sub(vector_to_subtract);
    assert_eq!(expected_vector, subtracted_vector);
}

#[test]
fn subtracts_to_zero_vector() {
    let original_vector = Vector { x: 12, y: 43 };
    let vector_to_subtract = original_vector;
    let expected_vector = Vector { x: 0, y: 0 };
    let subtracted_vector = original_vector.sub(vector_to_subtract);
    assert_eq!(expected_vector, subtracted_vector);
}

#[test]
fn subtracts_when_negative() {
    let original_vector = Vector { x: -12, y: -43 };
    let vector_to_subtract = Vector { x: -4, y: -2 };
    let expected_vector = Vector { x: -8, y: -41 };
    let subtracted_vector = original_vector.sub(vector_to_subtract);
    assert_eq!(expected_vector, subtracted_vector);
}

#[test]
fn scales_positive_vector() {
    let original_vector = Vector { x: 1, y: 2 };
    let expected_vector = Vector { x: 2, y: 4 };

    let scaled_vector = original_vector.scaled(2);

    assert_eq!(expected_vector, scaled_vector);
}

#[test]
fn scales_vector_with_negative_component() {
    let original_vector = Vector { x: -4, y: 2 };
    let expected_vector = Vector { x: -8, y: 4 };

    let scaled_vector = original_vector.scaled(2);

    assert_eq!(expected_vector, scaled_vector);
}

#[test]
fn calculates_dot_product() {
    let a = Vector { x: 2, y: 3 };
    let b = Vector { x: -4, y: 10 };
    let expected_dot_product = 22;
    let dot_product = a.dot_product(b);
    assert_eq!(expected_dot_product, dot_product);
}

#[test]
fn calculates_negative_dot_product() {
    let a = Vector { x: 2, y: 3 };
    let b = Vector { x: -40, y: 10 };
    let expected_dot_product = -50;
    let dot_product = a.dot_product(b);
    assert_eq!(expected_dot_product, dot_product);
}

#[test]
fn dot_product_is_zero_when_one_side_is_zero() {
    let a = Vector { x: 2, y: 3 };
    let b = Vector { x: 0, y: 0 };
    let expected_dot_product = 0;
    let dot_product = a.dot_product(b);
    assert_eq!(expected_dot_product, dot_product);
}

#[test]
fn dot_product_is_zero_when_both_sides_are_zero() {
    let a = Vector { x: 0, y: 0 };
    let b = Vector { x: 0, y: 0 };
    let expected_dot_product = 0;
    let dot_product = a.dot_product(b);
    assert_eq!(expected_dot_product, dot_product);
}

#[test]
fn calculates_cross_product() {
    let a = Vector { x: 2, y: 3 };
    let b = Vector { x: -4, y: 10 };
    let expected_cross_product = 32;
    let cross_product = a.cross_product(b);
    assert_eq!(expected_cross_product, cross_product);
}

#[test]
fn calculates_negative_cross_product() {
    let a = Vector { x: 2, y: 3 };
    let b = Vector { x: 40, y: 10 };
    let expected_cross_product = -100;
    let cross_product = a.cross_product(b);
    assert_eq!(expected_cross_product, cross_product);
}

#[test]
fn cross_product_is_zero_when_one_side_is_zero() {
    let a = Vector { x: 2, y: 3 };
    let b = Vector { x: 0, y: 0 };
    let expected_cross_product = 0;
    let cross_product = a.cross_product(b);
    assert_eq!(expected_cross_product, cross_product);
}

#[test]
fn cross_product_is_zero_when_both_sides_are_zero() {
    let a = Vector { x: 0, y: 0 };
    let b = Vector { x: 0, y: 0 };
    let expected_cross_product = 0;
    let cross_product = a.cross_product(b);
    assert_eq!(expected_cross_product, cross_product);
}

#[test]
fn cross_product_of_self_is_zero() {
    let vector = Vector { x: 40, y: 10 };
    let expected_cross_product = 0;
    let cross_product = vector.cross_product(vector);
    assert_eq!(expected_cross_product, cross_product);
}

#[test]
fn returns_correct_normal() {
    let vector = Vector { x: 10, y: 3 };
    let expected_normal = Vector { x: -3, y: 10 };
    let normal = vector.normal();

    assert_eq!(expected_normal, normal);
}

#[test]
fn dot_product_of_normal_is_zero() {
    let vector = Vector { x: 10, y: 3 };
    let normal = vector.normal();
    let expected_dot_product = 0;
    let dot_product = vector.dot_product(normal);

    assert_eq!(expected_dot_product, dot_product);
}

#[test]
fn negative_works_with_zero_vector() {
    let vector = Vector::default();
    let expected_vector = vector;

    let negative_vector = vector.negative();

    assert_eq!(expected_vector.x, negative_vector.x);
    assert_eq!(expected_vector.y, negative_vector.y);
}

#[test]
fn negative_works_with_5_and_negative_10() {
    let vector = Vector { x: 5, y: -10 };
    let expected_vector = Vector { x: -5, y: 10 };

    let negative_vector = vector.negative();

    assert_eq!(expected_vector.x, negative_vector.x);
    assert_eq!(expected_vector.y, negative_vector.y);
}

#[test]
fn converts_a_point_into_the_vector_from_the_origin() {
    let point = Point { x: 7, y: -9 };
    let vector: Vector = point.into();
    assert_eq!(Vector { x: 7, y: -9 }, vector);
}
