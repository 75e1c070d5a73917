use megastore_search::{tokenize, Catalog, Product};

fn sample_catalog() -> Catalog {
    let mut c = Catalog::new();
    c.add_products(vec![
        Product::new(1, "Notebook Gamer Pro 15", "Acer", "Eletrônicos", 599900, 4),
        Product::new(2, "Notebook Office Basic", "Acer", "Eletrônicos", 299900, 8),
        Product::new(3, "Mouse Gamer RGB", "Logitech", "Periféricos", 24900, 50),
        Product::new(4, "Teclado Mecânico", "Logitech", "Periféricos", 35000, 20),
        Product::new(5, "Camiseta Básica", "Hering", "Vestuário", 4990, 100),
    ]);
    c
}

#[test]
fn catalogo_vazio_inicialmente() {
    let c = Catalog::new();
    assert!(c.is_empty());
    assert_eq!(c.len(), 0);
}

#[test]
fn adiciona_e_conta_produtos() {
    let c = sample_catalog();
    assert_eq!(c.len(), 5);
}

#[test]
fn busca_por_id() {
    let c = sample_catalog();
    let p = c.find_by_id(3).expect("produto 3 deve existir");
    assert_eq!(p.name, "Mouse Gamer RGB");
}

#[test]
fn busca_por_id_inexistente_retorna_none() {
    let c = sample_catalog();
    assert!(c.find_by_id(999).is_none());
}

#[test]
fn busca_por_marca_traz_todos() {
    let c = sample_catalog();
    let acer = c.find_by_brand("Acer");
    assert_eq!(acer.len(), 2);
    let logitech = c.find_by_brand("Logitech");
    assert_eq!(logitech.len(), 2);
}

#[test]
fn busca_por_marca_case_insensitive() {
    let c = sample_catalog();
    assert_eq!(c.find_by_brand("ACER").len(), 2);
    assert_eq!(c.find_by_brand("acer").len(), 2);
}

#[test]
fn busca_por_categoria() {
    let c = sample_catalog();
    let perifericos = c.find_by_category("Periféricos");
    assert_eq!(perifericos.len(), 2);
}

#[test]
fn busca_textual_uma_palavra() {
    let c = sample_catalog();
    let r = c.search_by_name("notebook");
    assert_eq!(r.len(), 2);
}

#[test]
fn busca_textual_multiplas_palavras_faz_and() {
    let c = sample_catalog();
    let r = c.search_by_name("notebook gamer");
    assert_eq!(r.len(), 1);
    assert_eq!(r[0].id, 1);
}

#[test]
fn busca_textual_sem_resultados() {
    let c = sample_catalog();
    let r = c.search_by_name("inexistente");
    assert!(r.is_empty());
}

#[test]
fn busca_combinada_marca_e_categoria() {
    let c = sample_catalog();
    let r = c.search(None, Some("Periféricos"), Some("Logitech"));
    assert_eq!(r.len(), 2);
}

#[test]
fn busca_combinada_texto_e_marca() {
    let c = sample_catalog();
    let r = c.search(Some("gamer"), None, Some("Logitech"));
    assert_eq!(r.len(), 1);
    assert_eq!(r[0].name, "Mouse Gamer RGB");
}

#[test]
fn busca_sem_filtros_retorna_todos() {
    let c = sample_catalog();
    let r = c.search(None, None, None);
    assert_eq!(r.len(), 5);
}

#[test]
fn remover_produto_atualiza_indices() {
    let mut c = sample_catalog();
    let removido = c.remove_product(1);
    assert!(removido.is_some());
    assert_eq!(c.len(), 4);

    let r = c.search_by_name("notebook gamer");
    assert!(r.is_empty());

    let r = c.search_by_name("notebook");
    assert_eq!(r.len(), 1);
    assert_eq!(r[0].id, 2);
}

#[test]
fn tokenize_ignora_pontuacao_e_espacos() {
    let r = tokenize("Notebook, Gamer-Pro 15!");
    assert_eq!(r, vec!["notebook", "gamer", "pro", "15"]);
}
