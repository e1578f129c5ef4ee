use abstract_string::domain::AbstractDomain;
use abstract_string::domain::BinOpType;
use abstract_string::domain::ByteSize;
use abstract_string::domain::CastOpType;
use abstract_string::domain::HasByteSize;
use abstract_string::domain::HasTop;
use abstract_string::domain::RegisterDomain;
use abstract_string::domain::UnOpType;
use abstract_string::string_length::StringLengthDomain;

fn value(lower: u64, upper: u64) -> StringLengthDomain {
    StringLengthDomain::Value((ByteSize(lower), ByteSize(upper)))
}

fn top(width: u64) -> StringLengthDomain {
    StringLengthDomain::Top(ByteSize(width))
}

#[test]
fn merging_equal_lengths_changes_nothing() {
    assert_eq!(value(3, 7).merge(&value(3, 7)), value(3, 7));
    assert_eq!(top(4).merge(&top(4)), top(4));
}

#[test]
fn merging_different_lengths_takes_the_outer_bounds() {
    assert_eq!(value(3, 7).merge(&value(5, 9)), value(3, 9));
    assert_eq!(value(5, 9).merge(&value(3, 7)), value(3, 9));
    assert_eq!(value(2, 20).merge(&value(5, 9)), value(2, 20));
}

#[test]
fn merging_with_top_gives_the_top_of_that_width() {
    assert_eq!(value(3, 7).merge(&top(8)), top(8));
    assert_eq!(top(8).merge(&value(3, 7)), top(8));
}

#[test]
fn merging_two_tops_keeps_the_larger_width() {
    assert_eq!(top(4).merge(&top(8)), top(8));
    assert_eq!(top(8).merge(&top(4)), top(8));
}

#[test]
fn merging_lengths_does_not_depend_on_the_order() {
    let values = [top(0), top(4), top(8), value(0, 0), value(3, 7), value(5, 9), value(2, 20)];
    for a in values.iter() {
        for b in values.iter() {
            assert_eq!(a.merge(b), b.merge(a));
        }
        assert_eq!(a.merge(a), *a);
    }
}

#[test]
fn is_top_tells_top_from_value() {
    assert!(top(1).is_top());
    assert!(!value(0, 0).is_top());
}

#[test]
fn bytesize_is_the_width_or_the_upper_bound() {
    assert_eq!(top(8).bytesize(), ByteSize(8));
    assert_eq!(value(3, 7).bytesize(), ByteSize(7));
}

#[test]
fn top_of_a_value_has_its_bytesize() {
    assert_eq!(value(3, 7).top(), top(7));
    assert_eq!(top(2).top(), top(2));
}

#[test]
fn new_top_has_the_given_width() {
    assert_eq!(StringLengthDomain::new_top(ByteSize(16)), top(16));
}

#[test]
fn binary_operators_give_top_of_the_resulting_width() {
    assert_eq!(value(3, 7).bin_op(BinOpType::Piece, &top(4)), top(11));
    assert_eq!(value(3, 7).bin_op(BinOpType::IntEqual, &value(1, 7)), top(1));
    assert_eq!(value(3, 7).bin_op(BinOpType::IntSBorrow, &value(1, 7)), top(1));
    assert_eq!(value(3, 7).bin_op(BinOpType::IntAdd, &value(1, 9)), top(7));
    assert_eq!(top(2).bin_op(BinOpType::BoolOr, &top(2)), top(2));
}

#[test]
fn unary_operators_subpieces_and_casts_give_top() {
    assert_eq!(value(3, 7).un_op(UnOpType::IntNegate), top(7));
    assert_eq!(value(3, 7).subpiece(ByteSize(1), ByteSize(2)), top(2));
    assert_eq!(value(3, 7).cast(CastOpType::IntZExt, ByteSize(8)), top(8));
}
