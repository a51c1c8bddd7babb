use vstd::prelude::*;

verus! {

/// The category named in a field's mask declaration.
#[derive(PartialEq, Eq, Structural, Clone, Copy, Debug)]
pub enum MaskType {
    Ssn,
    FirstName,
    LastName,
    Email,
    Address,
    City,
    PhoneNumber,
    CreditCard,
    ZipCode,
    PositiveDecimal,
    Inferred,
}

/// The token written for each mask type.
pub open spec fn mask_token(m: MaskType) -> Seq<char> {
    match m {
        MaskType::Ssn => "ssn"@,
        MaskType::FirstName => "first_name"@,
        MaskType::LastName => "last_name"@,
        MaskType::Email => "email"@,
        MaskType::Address => "address"@,
        MaskType::City => "city"@,
        MaskType::PhoneNumber => "phone_number"@,
        MaskType::CreditCard => "credit_card"@,
        MaskType::ZipCode => "zip_code"@,
        MaskType::PositiveDecimal => "positive_decimal"@,
        MaskType::Inferred => "inferred"@,
    }
}

impl MaskType {
    /// The category token of this mask type.
    pub fn to_string(&self) -> (r: String)
        ensures
            r@ == mask_token(*self),
    {
        let t: &str = match self {
            MaskType::Ssn => "ssn",
            MaskType::FirstName => "first_name",
            MaskType::LastName => "last_name",
            MaskType::Email => "email",
            MaskType::Address => "address",
            MaskType::City => "city",
            MaskType::PhoneNumber => "phone_number",
            MaskType::CreditCard => "credit_card",
            MaskType::ZipCode => "zip_code",
            MaskType::PositiveDecimal => "positive_decimal",
            MaskType::Inferred => "inferred",
        };
        t.to_owned()
    }
}

impl Default for MaskType {
    /// A field without an explicit category is classified at mask time.
    fn default() -> (r: MaskType)
        ensures
            r == MaskType::Inferred,
    {
        MaskType::Inferred
    }
}

} // verus!
