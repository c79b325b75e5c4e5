//! The rules by which conversions between an enumeration and its numeric
//! representation are derived.
//!
//! The caller reads the enumeration's declaration and says here what it
//! found: its attributes, whether it is an enumeration, and for each variant
//! whether it has fields and what its discriminant is. What comes back is
//! the attribute that names the representation type and the number of every
//! variant, or the reason why no conversion can be derived.
use vstd::prelude::*;

verus! {

/// What follows the name of an attribute.
#[derive(Clone, Copy, Debug, PartialEq, Eq)]
pub enum AttrTokens {
    /// Something that does not start with a group of tokens, or nothing.
    NoGroup,
    /// A group without tokens.
    EmptyGroup,
    /// A group whose first token is taken as the type.
    Type,
}

/// An attribute of the declaration.
#[derive(Clone, Copy, Debug, PartialEq, Eq)]
pub struct Attribute {
    /// Whether it stands outside the item, as `#[..]` does.
    pub outer: bool,
    /// Whether its name is `repr`.
    pub is_repr: bool,
    /// What follows the name.
    pub tokens: AttrTokens,
}

/// The discriminant written on a variant.
#[derive(Clone, Copy, Debug, PartialEq, Eq)]
pub enum Discriminant {
    /// None is written: the variant gets the number after the one before it.
    Implied,
    /// An integer literal with this value.
    Literal(isize),
    /// An integer literal that does not fit the numbers used here.
    Unparsable,
    /// An expression that is no integer literal.
    NotLiteral,
}

/// A variant of the declaration.
#[derive(Clone, Copy, Debug, PartialEq, Eq)]
pub struct Variant {
    /// Whether it has no fields.
    pub unit: bool,
    /// The discriminant written on it.
    pub discriminant: Discriminant,
}

/// Why no conversion can be derived.
#[derive(Clone, Copy, Debug, PartialEq, Eq)]
pub enum ConvReprError {
    /// The `repr` attribute is not followed by a group of tokens.
    ReprWithoutGroup,
    /// There is no outer `repr` attribute, or its group is empty.
    NoReprType,
    /// The declaration is no enumeration.
    NotAnEnum,
    /// A variant has fields.
    VariantWithFields,
    /// A discriminant is not an integer literal.
    DiscriminantNotLiteral,
    /// A discriminant is an integer literal that cannot be read.
    DiscriminantUnparsable,
    /// The number after a variant's number does not exist.
    DiscriminantOverflow,
}

impl ConvReprError {
    /// The words of the error.
    pub open spec fn spec_message(self) -> Seq<char> {
        match self {
            ConvReprError::ReprWithoutGroup => "repr attr does not contain group of tokens"@,
            ConvReprError::NoReprType => "repr attribute does not specify a type"@,
            ConvReprError::NotAnEnum => "derive(ConvRepr) only works on enums"@,
            ConvReprError::VariantWithFields => "derive(ConvRepr) enums must not use fields"@,
            ConvReprError::DiscriminantNotLiteral =>
                "expected enum discriminant to be a literal integer"@,
            ConvReprError::DiscriminantUnparsable => "failed to parse discriminator literal"@,
            ConvReprError::DiscriminantOverflow => "enum discriminant overflowed"@,
        }
    }

    /// The words of the error.
    pub fn message(self) -> (res: &'static str)
        ensures
            res@ == self.spec_message(),
    {
        match self {
            ConvReprError::ReprWithoutGroup => "repr attr does not contain group of tokens",
            ConvReprError::NoReprType => "repr attribute does not specify a type",
            ConvReprError::NotAnEnum => "derive(ConvRepr) only works on enums",
            ConvReprError::VariantWithFields => "derive(ConvRepr) enums must not use fields",
            ConvReprError::DiscriminantNotLiteral =>
                "expected enum discriminant to be a literal integer",
            ConvReprError::DiscriminantUnparsable => "failed to parse discriminator literal",
            ConvReprError::DiscriminantOverflow => "enum discriminant overflowed",
        }
    }
}

/// What was derived.
#[derive(Debug)]
pub struct Derived {
    /// The index of the attribute that names the representation type.
    pub repr_attr: usize,
    /// The number of every variant, in the order of the variants.
    pub values: Vec<isize>,
}

/// Whether an attribute is the one looked for.
pub open spec fn names_repr(attr: Attribute) -> bool {
    attr.outer && attr.is_repr
}

/// The index of the first outer `repr` attribute, or the number of
/// attributes if there is none.
pub open spec fn first_repr(attrs: Seq<Attribute>) -> int
    decreases attrs.len(),
{
    if attrs.len() == 0 {
        0
    } else if names_repr(attrs[0]) {
        0
    } else {
        1 + first_repr(attrs.drop_first())
    }
}

/// What is wrong with the attributes, if anything.
pub open spec fn attr_error(attrs: Seq<Attribute>) -> Option<ConvReprError> {
    let at = first_repr(attrs);
    if at >= attrs.len() {
        Some(ConvReprError::NoReprType)
    } else {
        match attrs[at].tokens {
            AttrTokens::NoGroup => Some(ConvReprError::ReprWithoutGroup),
            AttrTokens::EmptyGroup => Some(ConvReprError::NoReprType),
            AttrTokens::Type => None,
        }
    }
}

/// The number of variant `i`: the literal written on it, or else one more
/// than the number of the variant before it, and 0 for the first.
pub open spec fn value_at(variants: Seq<Variant>, i: int) -> int
    decreases i,
{
    match variants[i].discriminant {
        Discriminant::Literal(v) => v as int,
        _ => if i <= 0 {
            0
        } else {
            value_at(variants, i - 1) + 1
        },
    }
}

/// What is wrong with variant `i`, if anything. The number after its own
/// must exist, whether or not a variant follows.
pub open spec fn variant_error(variants: Seq<Variant>, i: int) -> Option<ConvReprError> {
    if !variants[i].unit {
        Some(ConvReprError::VariantWithFields)
    } else if variants[i].discriminant is NotLiteral {
        Some(ConvReprError::DiscriminantNotLiteral)
    } else if variants[i].discriminant is Unparsable {
        Some(ConvReprError::DiscriminantUnparsable)
    } else if value_at(variants, i) >= isize::MAX {
        Some(ConvReprError::DiscriminantOverflow)
    } else {
        None
    }
}

/// The index of the first variant with which something is wrong, or
/// `upto` if there is none below it.
pub open spec fn first_bad(variants: Seq<Variant>, upto: int) -> int
    decreases upto,
{
    if upto <= 0 {
        0
    } else {
        let before = first_bad(variants, upto - 1);
        if before < upto - 1 {
            before
        } else if variant_error(variants, upto - 1) is Some {
            upto - 1
        } else {
            upto
        }
    }
}

/// Why no conversion can be derived, if none can: what is wrong with the
/// attributes, else that the item is no enumeration, else what is wrong
/// with the first variant with which something is.
pub open spec fn derive_error(
    attrs: Seq<Attribute>,
    is_enum: bool,
    variants: Seq<Variant>,
) -> Option<ConvReprError> {
    if attr_error(attrs) is Some {
        attr_error(attrs)
    } else if !is_enum {
        Some(ConvReprError::NotAnEnum)
    } else if first_bad(variants, variants.len() as int) < variants.len() {
        variant_error(variants, first_bad(variants, variants.len() as int))
    } else {
        None
    }
}

/// Below the first bad variant nothing is wrong, and at it something is.
pub proof fn law_first_bad(variants: Seq<Variant>, upto: int)
    requires
        0 <= upto <= variants.len(),
    ensures
        0 <= first_bad(variants, upto) <= upto,
        forall|i: int|
            0 <= i < first_bad(variants, upto) ==> (#[trigger] variant_error(variants, i)) is None,
        first_bad(variants, upto) < upto ==> variant_error(
            variants,
            first_bad(variants, upto),
        ) is Some,
    decreases upto,
{
    if upto > 0 {
        law_first_bad(variants, upto - 1);
    }
}

/// The first outer `repr` attribute is one, and none stands before it.
pub proof fn lemma_first_repr(attrs: Seq<Attribute>)
    ensures
        0 <= first_repr(attrs) <= attrs.len(),
        first_repr(attrs) < attrs.len() ==> names_repr(attrs[first_repr(attrs)]),
        forall|i: int| 0 <= i < first_repr(attrs) ==> !names_repr(#[trigger] attrs[i]),
    decreases attrs.len(),
{
    if attrs.len() > 0 && !names_repr(attrs[0]) {
        let rest = attrs.drop_first();
        lemma_first_repr(rest);
        assert forall|i: int| 0 <= i < first_repr(attrs) implies !names_repr(
            #[trigger] attrs[i],
        ) by {
            if i > 0 {
                assert(rest[i - 1] == attrs[i]);
            }
        }
        if first_repr(attrs) < attrs.len() {
            assert(rest[first_repr(rest)] == attrs[first_repr(attrs)]);
        }
    }
}

/// An index with an outer `repr` attribute before which there is none is the
/// first.
proof fn lemma_first_repr_found(attrs: Seq<Attribute>, at: int)
    requires
        0 <= at <= attrs.len(),
        forall|i: int| 0 <= i < at ==> !names_repr(#[trigger] attrs[i]),
        at < attrs.len() ==> names_repr(attrs[at]),
    ensures
        first_repr(attrs) == at,
{
    lemma_first_repr(attrs);
    let found = first_repr(attrs);
    if found < at {
        assert(!names_repr(attrs[found]));
    } else if found > at {
        assert(!names_repr(attrs[at]));
    }
}

/// Derives the numbers of the variants.
///
/// The representation type is named by the first outer `repr` attribute.
/// The first variant gets 0 unless a literal is written on it; every other
/// variant gets its literal, or one more than the variant before it.
pub fn conv_repr_derive(attrs: &Vec<Attribute>, is_enum: bool, variants: &Vec<Variant>) -> (res:
    Result<Derived, ConvReprError>)
    ensures
        match res {
            Ok(derived) => {
                &&& derive_error(attrs@, is_enum, variants@) is None
                &&& derived.repr_attr == first_repr(attrs@)
                &&& derived.values@.len() == variants@.len()
                &&& forall|i: int|
                    0 <= i < variants@.len() ==> #[trigger] derived.values@[i] == value_at(
                        variants@,
                        i,
                    )
            },
            Err(e) => derive_error(attrs@, is_enum, variants@) == Some(e),
        },
{
    let mut at: usize = 0;
    while at < attrs.len() && !(attrs[at].outer && attrs[at].is_repr)
        invariant
            at <= attrs@.len(),
            forall|i: int| 0 <= i < at ==> !names_repr(#[trigger] attrs@[i]),
        decreases attrs@.len() - at,
    {
        at += 1;
    }
    proof {
        lemma_first_repr_found(attrs@, at as int);
    }
    if at >= attrs.len() {
        return Err(ConvReprError::NoReprType);
    }
    match attrs[at].tokens {
        AttrTokens::NoGroup => {
            return Err(ConvReprError::ReprWithoutGroup);
        },
        AttrTokens::EmptyGroup => {
            return Err(ConvReprError::NoReprType);
        },
        AttrTokens::Type => {},
    }
    if !is_enum {
        return Err(ConvReprError::NotAnEnum);
    }
    let mut values: Vec<isize> = Vec::new();
    let mut next: isize = 0;
    let mut i: usize = 0;
    while i < variants.len()
        invariant
            i <= variants@.len(),
            values@.len() == i,
            first_bad(variants@, i as int) == i,
            forall|j: int| 0 <= j < i ==> #[trigger] values@[j] == value_at(variants@, j),
            next == if i == 0 {
                0
            } else {
                value_at(variants@, i - 1) + 1
            },
            attr_error(attrs@) is None,
            is_enum,
        decreases variants@.len() - i,
    {
        let variant = variants[i];
        if !variant.unit {
            proof {
                lemma_first_bad_is(variants@, i as int);
            }
            return Err(ConvReprError::VariantWithFields);
        }
        let value = match variant.discriminant {
            Discriminant::Implied => next,
            Discriminant::Literal(v) => v,
            Discriminant::Unparsable => {
                proof {
                    lemma_first_bad_is(variants@, i as int);
                }
                return Err(ConvReprError::DiscriminantUnparsable);
            },
            Discriminant::NotLiteral => {
                proof {
                    lemma_first_bad_is(variants@, i as int);
                }
                return Err(ConvReprError::DiscriminantNotLiteral);
            },
        };
        assert(value == value_at(variants@, i as int));
        if value == isize::MAX {
            proof {
                lemma_first_bad_is(variants@, i as int);
            }
            return Err(ConvReprError::DiscriminantOverflow);
        }
        values.push(value);
        next = value + 1;
        i += 1;
    }
    Ok(Derived { repr_attr: at, values })
}

/// A bad variant below which nothing is wrong is the first bad one of the
/// whole declaration.
proof fn lemma_first_bad_is(variants: Seq<Variant>, i: int)
    requires
        0 <= i < variants.len(),
        first_bad(variants, i) == i,
        variant_error(variants, i) is Some,
    ensures
        first_bad(variants, variants.len() as int) == i,
{
    lemma_first_bad_stays(variants, i + 1, variants.len() as int);
}

/// Once a bad variant is found, looking further finds the same one.
proof fn lemma_first_bad_stays(variants: Seq<Variant>, upto: int, further: int)
    requires
        0 <= upto <= further,
        first_bad(variants, upto) < upto,
    ensures
        first_bad(variants, further) == first_bad(variants, upto),
    decreases further - upto,
{
    if upto < further {
        lemma_first_bad_stays(variants, upto, further - 1);
    }
}

} // verus!
