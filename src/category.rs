use vstd::prelude::*;

use crate::error::MaskerError;
use crate::text::str_eq;

verus! {

/// The kind of personal data a literal holds.
#[derive(Debug, PartialEq, Eq, Structural, Clone, Copy)]
pub enum Category {
    Name,
    FirstName,
    LastName,
    Email,
    Address,
    Ssn,
    City,
    PhoneNumber,
    CreditCard,
    ZipCode,
    PositiveDecimal,
    /// Classify the literal at mask time; never a pool key.
    Inferred,
}

/// Number of concrete (pool-backed) categories.
pub const CONCRETE_COUNT: usize = 11;

/// The concrete categories, in declaration order.
pub open spec fn concrete_at(i: int) -> Category {
    if i == 0 {
        Category::Name
    } else if i == 1 {
        Category::FirstName
    } else if i == 2 {
        Category::LastName
    } else if i == 3 {
        Category::Email
    } else if i == 4 {
        Category::Address
    } else if i == 5 {
        Category::Ssn
    } else if i == 6 {
        Category::City
    } else if i == 7 {
        Category::PhoneNumber
    } else if i == 8 {
        Category::CreditCard
    } else if i == 9 {
        Category::ZipCode
    } else {
        Category::PositiveDecimal
    }
}

/// The category a token names, if any.
pub open spec fn category_of(t: Seq<char>) -> Option<Category> {
    if t == "name"@ {
        Some(Category::Name)
    } else if t == "first_name"@ {
        Some(Category::FirstName)
    } else if t == "last_name"@ {
        Some(Category::LastName)
    } else if t == "email"@ {
        Some(Category::Email)
    } else if t == "address"@ {
        Some(Category::Address)
    } else if t == "ssn"@ {
        Some(Category::Ssn)
    } else if t == "city"@ {
        Some(Category::City)
    } else if t == "phone_number"@ {
        Some(Category::PhoneNumber)
    } else if t == "credit_card"@ {
        Some(Category::CreditCard)
    } else if t == "zip_code"@ {
        Some(Category::ZipCode)
    } else if t == "positive_decimal"@ {
        Some(Category::PositiveDecimal)
    } else if t == "inferred"@ {
        Some(Category::Inferred)
    } else {
        None
    }
}

impl Category {
    /// The `i`-th concrete category in declaration order.
    pub fn concrete(i: usize) -> (c: Category)
        requires
            i < CONCRETE_COUNT,
        ensures
            c == concrete_at(i as int),
            c != Category::Inferred,
    {
        if i == 0 {
            Category::Name
        } else if i == 1 {
            Category::FirstName
        } else if i == 2 {
            Category::LastName
        } else if i == 3 {
            Category::Email
        } else if i == 4 {
            Category::Address
        } else if i == 5 {
            Category::Ssn
        } else if i == 6 {
            Category::City
        } else if i == 7 {
            Category::PhoneNumber
        } else if i == 8 {
            Category::CreditCard
        } else if i == 9 {
            Category::ZipCode
        } else {
            Category::PositiveDecimal
        }
    }

    /// Parses a category token; an unknown token is a `SimilarityError`.
    pub fn from_str(s: &str) -> (r: Result<Category, MaskerError>)
        ensures
            match category_of(s@) {
                Some(c) => r matches Ok(x) && x == c,
                None => r matches Err(e) && e is SimilarityError,
            },
    {
        let r = if str_eq(s, "name") {
            Ok(Category::Name)
        } else if str_eq(s, "first_name") {
            Ok(Category::FirstName)
        } else if str_eq(s, "last_name") {
            Ok(Category::LastName)
        } else if str_eq(s, "email") {
            Ok(Category::Email)
        } else if str_eq(s, "address") {
            Ok(Category::Address)
        } else if str_eq(s, "ssn") {
            Ok(Category::Ssn)
        } else if str_eq(s, "city") {
            Ok(Category::City)
        } else if str_eq(s, "phone_number") {
            Ok(Category::PhoneNumber)
        } else if str_eq(s, "credit_card") {
            Ok(Category::CreditCard)
        } else if str_eq(s, "zip_code") {
            Ok(Category::ZipCode)
        } else if str_eq(s, "positive_decimal") {
            Ok(Category::PositiveDecimal)
        } else if str_eq(s, "inferred") {
            Ok(Category::Inferred)
        } else {
            Err(MaskerError::SimilarityError(String::from_str("invalid category")))
        };
        r
    }
}

} // verus!
