use vstd::prelude::*;

use fake::faker::address::raw::CityName;
use fake::faker::internet::raw::SafeEmail;
use fake::faker::name::raw::{FirstName, LastName, Name};
use fake::faker::number::raw::NumberWithFormat;
use fake::faker::phone_number::raw::PhoneNumber;
use fake::locales::EN;
use fake::Fake;

use crate::category::{concrete_at, Category, CONCRETE_COUNT};
use crate::similarity::FakeWordPool;

verus! {

/// Relies on fake's `Name(EN)`: a random English full name.
#[verifier::external_body]
fn fake_full_name() -> String {
    Name(EN).fake()
}

/// Relies on fake's `FirstName(EN)`: a random English first name.
#[verifier::external_body]
fn fake_first_name() -> String {
    FirstName(EN).fake()
}

/// Relies on fake's `LastName(EN)`: a random English last name.
#[verifier::external_body]
fn fake_last_name() -> String {
    LastName(EN).fake()
}

/// Relies on fake's `SafeEmail(EN)`: a random address at an example domain.
#[verifier::external_body]
fn fake_email() -> String {
    SafeEmail(EN).fake()
}

/// Relies on fakeit::address::street: a random street address.
#[verifier::external_body]
fn fake_street() -> String {
    fakeit::address::street()
}

/// Relies on fakeit::person::ssn: a random social security number.
#[verifier::external_body]
fn fake_ssn() -> String {
    fakeit::person::ssn()
}

/// Relies on fake's `CityName(EN)`: a random city name.
#[verifier::external_body]
fn fake_city() -> String {
    CityName(EN).fake()
}

/// Relies on fake's `PhoneNumber(EN)`: a random phone number.
#[verifier::external_body]
fn fake_phone_number() -> String {
    PhoneNumber(EN).fake()
}

/// Relies on fakeit::payment::credit_card_number: a random card number.
#[verifier::external_body]
fn fake_credit_card() -> String {
    fakeit::payment::credit_card_number()
}

/// Relies on fakeit::address::zip: a random zip code.
#[verifier::external_body]
fn fake_zip() -> String {
    fakeit::address::zip()
}

/// Relies on fake's `NumberWithFormat(EN, "####.##")`: random digits in that
/// format.
#[verifier::external_body]
fn fake_positive_decimal() -> String {
    NumberWithFormat(EN, "####.##").fake()
}

/// One random sample of a concrete category.
fn fake_word(c: Category) -> String
    requires
        c != Category::Inferred,
{
    match c {
        Category::Name => fake_full_name(),
        Category::FirstName => fake_first_name(),
        Category::LastName => fake_last_name(),
        Category::Email => fake_email(),
        Category::Address => fake_street(),
        Category::Ssn => fake_ssn(),
        Category::City => fake_city(),
        Category::PhoneNumber => fake_phone_number(),
        Category::CreditCard => fake_credit_card(),
        Category::ZipCode => fake_zip(),
        _ => fake_positive_decimal(),
    }
}

/// A pool with one row per concrete category, in declaration order, each of
/// `category_pool_size` random samples.
pub fn generate_fake_words_pool(category_pool_size: usize) -> (r: FakeWordPool)
    ensures
        r.len() == CONCRETE_COUNT,
        forall|i: int|
            0 <= i < CONCRETE_COUNT ==> (#[trigger] r@[i]).0 == concrete_at(i) && r@[i].1.len()
                == category_pool_size,
{
    let mut data: FakeWordPool = Vec::new();
    let mut i: usize = 0;
    while i < CONCRETE_COUNT
        invariant
            i <= CONCRETE_COUNT,
            data.len() == i,
            forall|k: int|
                0 <= k < i ==> (#[trigger] data@[k]).0 == concrete_at(k) && data@[k].1.len()
                    == category_pool_size,
        decreases CONCRETE_COUNT - i,
    {
        let c = Category::concrete(i);
        let mut row: Vec<String> = Vec::new();
        let mut j: usize = 0;
        while j < category_pool_size
            invariant
                j <= category_pool_size,
                row.len() == j,
                c != Category::Inferred,
            decreases category_pool_size - j,
        {
            row.push(fake_word(c));
            j = j + 1;
        }
        data.push((c, row));
        i = i + 1;
    }
    data
}

} // verus!
