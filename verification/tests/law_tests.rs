use megastore_search::text::{is_white_space, trim};
use megastore_search::{normalize, tokenize, Catalog, Product};

fn ids(v: &[&Product]) -> Vec<u64> {
    let mut r: Vec<u64> = v.iter().map(|p| p.id).collect();
    r.sort();
    r
}

fn small() -> Catalog {
    let mut c = Catalog::new();
    c.add_product(Product::new(1, "Café Especial Moído", "Pilão", "Mercearia", 1899, 12));
    c.add_product(Product::new(2, "Café Solúvel", "Nescafé", "Mercearia", 2450, 0));
    c.add_product(Product::new(3, "Chá Verde", "Leão", "Bebidas", 799, 30));
    c
}

#[test]
fn find_after_add_returns_the_product() {
    let mut c = small();
    let p = Product::new(7, "Filtro de Papel 103", "Melitta", "Utilidades", 650, 5);
    c.add_product(p.clone());
    assert_eq!(c.find_by_id(7), Some(&p));
    assert_eq!(c.find_by_id(1).unwrap().name, "Café Especial Moído");
}

#[test]
fn added_product_found_by_brand_category_and_words() {
    let mut c = small();
    c.add_product(Product::new(9, "Garrafa Térmica Inox", "Mor", "Utilidades", 8990, 3));
    assert_eq!(ids(&c.find_by_brand("  mOR ")), vec![9]);
    assert_eq!(ids(&c.find_by_category("UTILIDADES")), vec![9]);
    assert_eq!(ids(&c.search_by_name("inox garrafa")), vec![9]);
    assert_eq!(ids(&c.search_by_name("TÉRMICA")), vec![9]);
}

#[test]
fn removed_product_is_gone_everywhere() {
    let mut c = small();
    let removed = c.remove_product(2).unwrap();
    assert_eq!(removed.name, "Café Solúvel");
    assert!(c.find_by_id(2).is_none());
    assert!(c.find_by_brand("Nescafé").is_empty());
    assert_eq!(ids(&c.find_by_category("Mercearia")), vec![1]);
    assert_eq!(ids(&c.search_by_name("café")), vec![1]);
    assert_eq!(ids(&c.search(None, None, None)), vec![1, 3]);
    assert_eq!(c.len(), 2);
}

#[test]
fn remove_absent_id_changes_nothing() {
    let mut c = small();
    assert!(c.remove_product(42).is_none());
    assert_eq!(c.len(), 3);
    assert_eq!(ids(&c.search(None, None, None)), vec![1, 2, 3]);
}

#[test]
fn remove_undoes_add_of_new_id() {
    let mut c = small();
    c.add_product(Product::new(50, "Açúcar Cristal", "União", "Mercearia", 499, 40));
    assert_eq!(c.len(), 4);
    c.remove_product(50);
    assert_eq!(c.len(), 3);
    assert_eq!(ids(&c.search(None, None, None)), vec![1, 2, 3]);
    assert!(c.search_by_name("açúcar").is_empty());
}

#[test]
fn same_id_replaces_and_keeps_count() {
    let mut c = small();
    c.add_product(Product::new(3, "Chá Preto", "Leão", "Bebidas", 899, 10));
    assert_eq!(c.len(), 3);
    assert_eq!(c.find_by_id(3).unwrap().name, "Chá Preto");
    assert_eq!(ids(&c.search_by_name("preto")), vec![3]);
    // the replaced product's name words no longer find the id
    assert!(c.search_by_name("verde").is_empty());
}

#[test]
fn re_adding_an_id_moves_it_between_brands_and_categories() {
    let mut c = Catalog::new();
    c.add_product(Product::new(1, "Mouse", "Logitech", "Periféricos", 100, 1));
    c.add_product(Product::new(1, "Teclado", "Acer", "Eletrônicos", 200, 1));
    assert_eq!(c.len(), 1);
    assert_eq!(c.find_by_id(1).unwrap().name, "Teclado");
    assert!(c.find_by_brand("Logitech").is_empty());
    assert!(c.find_by_category("Periféricos").is_empty());
    assert!(c.search_by_name("mouse").is_empty());
    assert_eq!(ids(&c.find_by_brand("Acer")), vec![1]);
    assert_eq!(ids(&c.find_by_category("eletrônicos")), vec![1]);
    assert_eq!(ids(&c.search(Some("teclado"), Some("Eletrônicos"), Some("ACER"))), vec![1]);
}

#[test]
fn adding_the_same_product_twice_is_one_add() {
    let mut c = small();
    let p = Product::new(8, "Leite Integral", "Itambé", "Laticínios", 559, 60);
    c.add_product(p.clone());
    c.add_product(p);
    assert_eq!(c.len(), 4);
    assert_eq!(ids(&c.find_by_brand("Itambé")), vec![8]);
    assert_eq!(ids(&c.search_by_name("leite")), vec![8]);
}

#[test]
fn brand_and_category_ignore_punctuation() {
    let mut c = Catalog::new();
    c.add_product(Product::new(1, "Mouse", "Acer", "Periféricos", 100, 1));
    c.add_product(Product::new(2, "Jeans", "Levi's", "Vestuário", 100, 1));
    assert_eq!(ids(&c.find_by_brand("Acer!")), vec![1]);
    assert_eq!(ids(&c.find_by_brand("levi s")), vec![2]);
    assert_eq!(ids(&c.find_by_brand("LEVI'S")), vec![2]);
    assert_eq!(ids(&c.find_by_category("-periféricos-")), vec![1]);
    assert!(c.find_by_brand("Levis").is_empty());
}

#[test]
fn lookups_ignore_case_and_spaces() {
    let c = small();
    assert_eq!(ids(&c.find_by_brand("PILÃO")), ids(&c.find_by_brand(" pilão\t")));
    assert_eq!(ids(&c.find_by_category("mercearia")), vec![1, 2]);
    assert_eq!(ids(&c.search_by_name("CAFÉ, moído!")), vec![1]);
}

#[test]
fn search_without_filters_or_blank_query_lists_all() {
    let c = small();
    assert_eq!(ids(&c.search(None, None, None)), vec![1, 2, 3]);
    assert_eq!(ids(&c.search(Some("   "), None, None)), vec![1, 2, 3]);
    assert!(c.search(Some("?!"), None, None).is_empty());
}

#[test]
fn search_is_intersection_of_filters() {
    let c = small();
    assert_eq!(ids(&c.search(Some("café"), Some("Mercearia"), Some("Pilão"))), vec![1]);
    assert_eq!(ids(&c.search(None, Some("Bebidas"), None)), ids(&c.find_by_category("Bebidas")));
    assert_eq!(ids(&c.search(None, None, Some("Leão"))), ids(&c.find_by_brand("Leão")));
    assert!(c.search(Some("chá"), None, Some("Pilão")).is_empty());
    assert!(c.search(None, Some("Inexistente"), None).is_empty());
}

#[test]
fn more_words_narrow_name_search() {
    let c = small();
    assert_eq!(ids(&c.search_by_name("café")), vec![1, 2]);
    assert_eq!(ids(&c.search_by_name("café solúvel")), vec![2]);
    assert!(c.search_by_name("café verde").is_empty());
}

#[test]
fn empty_catalog_finds_nothing() {
    let c = Catalog::default();
    assert!(c.is_empty());
    assert!(c.find_by_brand("x").is_empty());
    assert!(c.find_by_category("x").is_empty());
    assert!(c.search_by_name("x").is_empty());
    assert!(c.search(None, None, None).is_empty());
}

#[test]
fn query_without_words_finds_nothing() {
    let c = small();
    assert!(c.search_by_name("").is_empty());
    assert!(c.search_by_name(" -- ").is_empty());
}

#[test]
fn tokenize_edge_cases() {
    assert!(tokenize("").is_empty());
    assert!(tokenize("!!! ,, ").is_empty());
    assert_eq!(tokenize("Ração-Pet ÁGUA"), vec!["ração", "pet", "água"]);
    assert_eq!(tokenize("a1b2"), vec!["a1b2"]);
}

#[test]
fn normalize_trims_and_lowercases() {
    assert_eq!(normalize("  ELETRÔNICOS \n"), "eletrônicos");
    assert_eq!(normalize(""), "");
    assert_eq!(normalize("\u{3000}Ação\t"), "ação");
    assert_eq!(normalize("Levi's  Jeans!"), "levi s jeans");
    assert_eq!(normalize("!!!"), "");
}

#[test]
fn trim_removes_only_outer_white_space() {
    assert_eq!(trim("  a b  "), "a b");
    assert_eq!(trim("\t\n "), "");
    assert_eq!(trim("x"), "x");
    assert_eq!(trim("\u{85}\u{a0}y\u{2009}z\u{3000}"), "y\u{2009}z");
    assert_eq!(trim("\u{200b}a"), "\u{200b}a");
}

#[test]
fn price_edge_cases() {
    assert_eq!(Product::new(1, "a", "b", "c", 0, 0).price_formatted(), "R$ 0,00");
    assert_eq!(Product::new(1, "a", "b", "c", 5, 0).price_formatted(), "R$ 0,05");
    assert_eq!(Product::new(1, "a", "b", "c", 1234567, 0).price_formatted(), "R$ 12345,67");
    assert_eq!(
        Product::new(1, "a", "b", "c", u64::MAX, 0).price_formatted(),
        "R$ 184467440737095516,15"
    );
}

#[test]
fn add_products_adds_in_order() {
    let mut c = Catalog::new();
    c.add_products(vec![
        Product::new(1, "Primeiro", "A", "X", 1, 1),
        Product::new(1, "Segundo", "A", "X", 2, 1),
    ]);
    assert_eq!(c.len(), 1);
    assert_eq!(c.find_by_id(1).unwrap().name, "Segundo");
}

#[test]
fn lookups_match_products_after_new_ids() {
    let mut c = small();
    c.add_product(Product::new(4, "Café Gourmet", "Pilão", "Cafés Especiais", 3999, 2));
    c.remove_product(1);
    c.add_product(Product::new(5, "Chá Mate", "Leão", "Bebidas", 599, 9));
    let all = c.search(None, None, None);
    for brand in ["Pilão", "Leão", "Nescafé"] {
        let mut expected: Vec<u64> = all
            .iter()
            .filter(|p| normalize(&p.brand) == normalize(brand))
            .map(|p| p.id)
            .collect();
        expected.sort();
        assert_eq!(ids(&c.find_by_brand(brand)), expected);
    }
    assert_eq!(ids(&c.search_by_name("chá")), vec![3, 5]);
    assert_eq!(ids(&c.search_by_name("café")), vec![2, 4]);
}

#[test]
fn remove_after_add_restores_lookups() {
    let mut c = small();
    let before_brand = ids(&c.find_by_brand("Leão"));
    let before_words = ids(&c.search_by_name("chá"));
    c.add_product(Product::new(60, "Chá Branco", "Leão", "Bebidas", 1299, 4));
    c.remove_product(60);
    assert_eq!(ids(&c.find_by_brand("Leão")), before_brand);
    assert_eq!(ids(&c.search_by_name("chá")), before_words);
    assert_eq!(ids(&c.search(Some("chá"), Some("Bebidas"), Some("Leão"))), vec![3]);
}

#[test]
fn white_space_agrees_with_std_on_every_char() {
    for c in (0..=0x10FFFFu32).filter_map(char::from_u32) {
        assert_eq!(is_white_space(c), c.is_whitespace(), "{:?}", c);
    }
}
