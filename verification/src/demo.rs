//! The demonstration catalogue that the program shows.
use vstd::prelude::*;

use crate::catalog::{add_all, Catalog};
use crate::product::Product;

verus! {

/// `p` has exactly these fields.
pub open spec fn has_fields(
    p: Product,
    id: u64,
    name: Seq<char>,
    brand: Seq<char>,
    category: Seq<char>,
    price_cents: u64,
    stock: u32,
) -> bool {
    &&& p.id == id
    &&& p.name@ == name
    &&& p.brand@ == brand
    &&& p.category@ == category
    &&& p.price_cents == price_cents
    &&& p.stock == stock
}

/// The ten demonstration products, in the order they are added.
pub open spec fn is_demo(ps: Seq<Product>) -> bool {
    &&& ps.len() == 10
    &&& has_fields(ps[0], 1, "Notebook Gamer Pro 15"@, "Acer"@, "Eletrônicos"@, 599900, 4)
    &&& has_fields(ps[1], 2, "Notebook Office Basic 14"@, "Acer"@, "Eletrônicos"@, 299900, 8)
    &&& has_fields(ps[2], 3, "Mouse Gamer RGB Pro"@, "Logitech"@, "Periféricos"@, 24900, 50)
    &&& has_fields(ps[3], 4, "Teclado Mecânico"@, "Logitech"@, "Periféricos"@, 35000, 20)
    &&& has_fields(ps[4], 5, "Headset Gamer Surround"@, "HyperX"@, "Periféricos"@, 45000, 15)
    &&& has_fields(ps[5], 6, "Camiseta Básica Algodão"@, "Hering"@, "Vestuário"@, 4990, 100)
    &&& has_fields(ps[6], 7, "Calça Jeans Slim"@, "Levi's"@, "Vestuário"@, 19990, 40)
    &&& has_fields(ps[7], 8, "Tênis Esportivo"@, "Nike"@, "Calçados"@, 29990, 25)
    &&& has_fields(ps[8], 9, "Smart TV 55 4K"@, "Samsung"@, "Eletrônicos"@, 289900, 6)
    &&& has_fields(ps[9], 10, "Cafeteira Elétrica"@, "Britânia"@, "Eletrodomésticos"@, 12990, 30)
}

/// Adds the ten demonstration products to `c`, in order.
pub fn populate(c: &mut Catalog)
    requires
        old(c).wf(),
    ensures
        final(c).wf(),
        exists|ps: Seq<Product>| #[trigger] is_demo(ps) && final(c)@ == add_all(old(c)@, ps),
{
    let items = vec![
        Product::new(1, "Notebook Gamer Pro 15", "Acer", "Eletrônicos", 599900, 4),
        Product::new(2, "Notebook Office Basic 14", "Acer", "Eletrônicos", 299900, 8),
        Product::new(3, "Mouse Gamer RGB Pro", "Logitech", "Periféricos", 24900, 50),
        Product::new(4, "Teclado Mecânico", "Logitech", "Periféricos", 35000, 20),
        Product::new(5, "Headset Gamer Surround", "HyperX", "Periféricos", 45000, 15),
        Product::new(6, "Camiseta Básica Algodão", "Hering", "Vestuário", 4990, 100),
        Product::new(7, "Calça Jeans Slim", "Levi's", "Vestuário", 19990, 40),
        Product::new(8, "Tênis Esportivo", "Nike", "Calçados", 29990, 25),
        Product::new(9, "Smart TV 55 4K", "Samsung", "Eletrônicos", 289900, 6),
        Product::new(10, "Cafeteira Elétrica", "Britânia", "Eletrodomésticos", 12990, 30),
    ];
    let ghost ps = items@;
    assert(is_demo(ps));
    c.add_products(items);
}

} // verus!
