use megastore_search::Product;

#[test]
fn cria_produto_corretamente() {
    let p = Product::new(1, "Mouse", "Logitech", "Periféricos", 14999, 10);
    assert_eq!(p.id, 1);
    assert_eq!(p.name, "Mouse");
    assert_eq!(p.brand, "Logitech");
    assert_eq!(p.category, "Periféricos");
    assert_eq!(p.price_cents, 14999);
    assert_eq!(p.stock, 10);
}

#[test]
fn formata_preco_corretamente() {
    let p = Product::new(1, "X", "Y", "Z", 14999, 1);
    assert_eq!(p.price_formatted(), "R$ 149,99");
}

#[test]
fn preco_com_zero_centavos() {
    let p = Product::new(1, "X", "Y", "Z", 10000, 1);
    assert_eq!(p.price_formatted(), "R$ 100,00");
}

#[test]
fn detecta_estoque_vazio() {
    let p = Product::new(1, "X", "Y", "Z", 100, 0);
    assert!(!p.in_stock());
}

#[test]
fn detecta_estoque_disponivel() {
    let p = Product::new(1, "X", "Y", "Z", 100, 5);
    assert!(p.in_stock());
}
