use workqueue::conv_repr::{
    conv_repr_derive, AttrTokens, Attribute, ConvReprError, Discriminant, Variant,
};

fn repr() -> Attribute {
    Attribute { outer: true, is_repr: true, tokens: AttrTokens::Type }
}

fn other() -> Attribute {
    Attribute { outer: true, is_repr: false, tokens: AttrTokens::Type }
}

fn unit(discriminant: Discriminant) -> Variant {
    Variant { unit: true, discriminant }
}

fn values(variants: &[Variant]) -> Result<Vec<isize>, ConvReprError> {
    conv_repr_derive(&vec![repr()], true, &variants.to_vec()).map(|derived| derived.values)
}

#[test]
fn variants_without_discriminants_count_from_zero() {
    let v = [unit(Discriminant::Implied); 4];
    assert_eq!(values(&v), Ok(vec![0, 1, 2, 3]));
}

#[test]
fn a_literal_restarts_the_count() {
    let v = [
        unit(Discriminant::Implied),
        unit(Discriminant::Literal(10)),
        unit(Discriminant::Implied),
        unit(Discriminant::Literal(-3)),
        unit(Discriminant::Implied),
        unit(Discriminant::Implied),
        unit(Discriminant::Literal(-3)),
    ];
    assert_eq!(values(&v), Ok(vec![0, 10, 11, -3, -2, -1, -3]));
}

#[test]
fn an_enum_without_variants_has_no_numbers() {
    assert_eq!(values(&[]), Ok(vec![]));
}

#[test]
fn the_first_outer_repr_attribute_names_the_type() {
    let inner = Attribute { outer: false, is_repr: true, tokens: AttrTokens::Type };
    let attrs = vec![other(), inner, repr(), repr()];
    let derived = conv_repr_derive(&attrs, true, &vec![unit(Discriminant::Implied)]).unwrap();
    assert_eq!(derived.repr_attr, 2);
    assert_eq!(derived.values, vec![0]);
}

#[test]
fn a_later_repr_attribute_is_not_looked_at() {
    let broken = Attribute { outer: true, is_repr: true, tokens: AttrTokens::NoGroup };
    let derived = conv_repr_derive(&vec![repr(), broken], true, &vec![]).unwrap();
    assert_eq!(derived.repr_attr, 0);
    assert_eq!(
        conv_repr_derive(&vec![broken, repr()], true, &vec![]).unwrap_err(),
        ConvReprError::ReprWithoutGroup
    );
}

#[test]
fn missing_or_empty_repr_names_no_type() {
    assert_eq!(
        conv_repr_derive(&vec![], true, &vec![]).unwrap_err(),
        ConvReprError::NoReprType
    );
    assert_eq!(
        conv_repr_derive(&vec![other()], true, &vec![]).unwrap_err(),
        ConvReprError::NoReprType
    );
    let empty = Attribute { outer: true, is_repr: true, tokens: AttrTokens::EmptyGroup };
    assert_eq!(
        conv_repr_derive(&vec![empty], true, &vec![]).unwrap_err(),
        ConvReprError::NoReprType
    );
    let inner = Attribute { outer: false, is_repr: true, tokens: AttrTokens::Type };
    assert_eq!(
        conv_repr_derive(&vec![inner], true, &vec![]).unwrap_err(),
        ConvReprError::NoReprType
    );
}

#[test]
fn only_enums_are_derived() {
    assert_eq!(
        conv_repr_derive(&vec![repr()], false, &vec![]).unwrap_err(),
        ConvReprError::NotAnEnum
    );
    assert_eq!(
        conv_repr_derive(&vec![], false, &vec![]).unwrap_err(),
        ConvReprError::NoReprType
    );
}

#[test]
fn each_fault_of_a_variant_has_its_error() {
    let with_fields = Variant { unit: false, discriminant: Discriminant::Implied };
    assert_eq!(values(&[with_fields]), Err(ConvReprError::VariantWithFields));
    assert_eq!(
        values(&[unit(Discriminant::NotLiteral)]),
        Err(ConvReprError::DiscriminantNotLiteral)
    );
    assert_eq!(
        values(&[unit(Discriminant::Unparsable)]),
        Err(ConvReprError::DiscriminantUnparsable)
    );
    assert_eq!(
        values(&[unit(Discriminant::Literal(isize::MAX))]),
        Err(ConvReprError::DiscriminantOverflow)
    );
    assert_eq!(values(&[unit(Discriminant::Literal(isize::MAX - 1))]), Ok(vec![isize::MAX - 1]));
    assert_eq!(
        values(&[unit(Discriminant::Literal(isize::MAX - 1)), unit(Discriminant::Implied)]),
        Err(ConvReprError::DiscriminantOverflow)
    );
    assert_eq!(values(&[unit(Discriminant::Literal(isize::MIN))]), Ok(vec![isize::MIN]));
}

#[test]
fn the_first_faulty_variant_decides() {
    let with_fields = Variant { unit: false, discriminant: Discriminant::NotLiteral };
    assert_eq!(
        values(&[unit(Discriminant::Implied), unit(Discriminant::Unparsable), with_fields]),
        Err(ConvReprError::DiscriminantUnparsable)
    );
    assert_eq!(
        values(&[with_fields, unit(Discriminant::Unparsable)]),
        Err(ConvReprError::VariantWithFields)
    );
}

#[test]
fn every_error_has_its_words() {
    assert_eq!(
        ConvReprError::ReprWithoutGroup.message(),
        "repr attr does not contain group of tokens"
    );
    assert_eq!(ConvReprError::NoReprType.message(), "repr attribute does not specify a type");
    assert_eq!(ConvReprError::NotAnEnum.message(), "derive(ConvRepr) only works on enums");
    assert_eq!(
        ConvReprError::VariantWithFields.message(),
        "derive(ConvRepr) enums must not use fields"
    );
    assert_eq!(
        ConvReprError::DiscriminantNotLiteral.message(),
        "expected enum discriminant to be a literal integer"
    );
    assert_eq!(
        ConvReprError::DiscriminantUnparsable.message(),
        "failed to parse discriminator literal"
    );
    assert_eq!(ConvReprError::DiscriminantOverflow.message(), "enum discriminant overflowed");
}
