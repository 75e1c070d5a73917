//! A product of the catalogue and the way its price is shown.
use vstd::prelude::*;

use crate::text::string_push;

verus! {

/// One product of the catalogue. `id` identifies it; `name`, `brand` and
/// `category` are what the catalogue indexes.
#[derive(Debug, Clone, PartialEq)]
pub struct Product {
    /// Unique identifier of the product.
    pub id: u64,
    /// Product name, e.g. "Notebook Gamer Pro 15".
    pub name: String,
    /// Brand or maker.
    pub brand: String,
    /// Category, e.g. "Eletrônicos".
    pub category: String,
    /// Price in cents, so that no fraction is ever rounded.
    pub price_cents: u64,
    /// Units in stock.
    pub stock: u32,
}

/// The decimal digit `d` (0 to 9) as a character.
pub open spec fn digit_char(d: int) -> char {
    (d + 48) as char
}

/// The decimal representation of `n`, without leading zeros.
pub open spec fn decimal(n: nat) -> Seq<char>
    decreases n,
{
    if n < 10 {
        seq![digit_char(n as int)]
    } else {
        decimal(n / 10).push(digit_char((n % 10) as int))
    }
}

/// `n` (below 100) written with exactly two digits.
pub open spec fn two_digits(n: nat) -> Seq<char> {
    seq![digit_char((n / 10) as int), digit_char((n % 10) as int)]
}

/// A price in cents shown in reais: "R$ ", the whole reais, a comma, and the
/// cents in two digits.
pub open spec fn price_text(cents: nat) -> Seq<char> {
    seq!['R', '$', ' '] + decimal(cents / 100) + seq![','] + two_digits(cents % 100)
}

fn digit(d: u64) -> (c: char)
    requires
        d < 10,
    ensures
        c == digit_char(d as int),
{
    let b: u8 = d as u8;
    (b + 48u8) as char
}

fn push_decimal(s: &mut String, n: u64)
    ensures
        final(s)@ == old(s)@ + decimal(n as nat),
    decreases n,
{
    if n >= 10 {
        push_decimal(s, n / 10);
    }
    let ghost mid = s@;
    string_push(s, digit(n % 10));
    proof {
        if n >= 10 {
            assert(s@ =~= old(s)@ + decimal((n / 10) as nat).push(digit_char((n % 10) as int)));
        } else {
            assert(s@ =~= old(s)@ + decimal(n as nat));
        }
    }
}

impl Product {
    /// Creates a product with the given fields.
    pub fn new(
        id: u64,
        name: &str,
        brand: &str,
        category: &str,
        price_cents: u64,
        stock: u32,
    ) -> (p: Product)
        ensures
            p.id == id,
            p.name@ == name@,
            p.brand@ == brand@,
            p.category@ == category@,
            p.price_cents == price_cents,
            p.stock == stock,
    {
        Product {
            id,
            name: String::from_str(name),
            brand: String::from_str(brand),
            category: String::from_str(category),
            price_cents,
            stock,
        }
    }

    /// The price in reais, as "R$ X,YY".
    pub fn price_formatted(&self) -> (r: String)
        ensures
            r@ == price_text(self.price_cents as nat),
    {
        let reais = self.price_cents / 100;
        let cents = self.price_cents % 100;
        let mut s = String::new();
        string_push(&mut s, 'R');
        string_push(&mut s, '$');
        string_push(&mut s, ' ');
        push_decimal(&mut s, reais);
        string_push(&mut s, ',');
        string_push(&mut s, digit(cents / 10));
        string_push(&mut s, digit(cents % 10));
        assert(s@ =~= price_text(self.price_cents as nat));
        s
    }

    /// Whether at least one unit is in stock.
    pub fn in_stock(&self) -> (r: bool)
        ensures
            r == (self.stock > 0),
    {
        self.stock > 0
    }
}

} // verus!
