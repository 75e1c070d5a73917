//! What holds of every catalogue across its operations. A catalogue's view
//! is its products by id; every lookup and search is a function of it
//! (see the contracts in `catalog`), so two catalogues with equal views
//! answer every query alike.
use vstd::prelude::*;

use crate::catalog::{add_all, brand_hits, category_hits, name_hits, search_hits, Catalog};
use crate::product::Product;
use crate::text::{
    all_latin1, lemma_tokens_case, lemma_tokens_shape, lemma_tokens_split, lower_char, lowered,
    normalized, tokens, trimmed,
};

verus! {

/// A product that was added is found by its id, and every other id finds
/// what it found before.
pub proof fn law_find_after_add(c: Catalog, p: Product, id: u64)
    requires
        c.wf(),
    ensures
        c@.insert(p.id, p).contains_key(p.id),
        c@.insert(p.id, p)[p.id] == p,
        id != p.id ==> c@.insert(p.id, p).contains_key(id) == c@.contains_key(id),
        id != p.id && c@.contains_key(id) ==> c@.insert(p.id, p)[id] == c@[id],
{
}

/// A product that was added is found by its brand and by its category,
/// whatever their case and punctuation, and by any query whose words are
/// all words of its name; and it is found under no other brand or category.
pub proof fn law_found_after_add(
    c: Catalog,
    p: Product,
    brand: Seq<char>,
    category: Seq<char>,
    query: Seq<char>,
)
    requires
        c.wf(),
    ensures
        brand_hits(c@.insert(p.id, p), brand).contains(p.id) == (normalized(brand) == normalized(
            p.brand@,
        )),
        category_hits(c@.insert(p.id, p), category).contains(p.id) == (normalized(category)
            == normalized(p.category@)),
        tokens(query).len() > 0 && (forall|i: int|
            0 <= i < tokens(query).len() ==> tokens(p.name@).contains(#[trigger] tokens(query)[i]))
            ==> name_hits(c@.insert(p.id, p), query).contains(p.id),
{
}

/// Adding a product changes no answer about any other id: each other
/// product is found by exactly the lookups and searches that found it
/// before.
pub proof fn law_add_keeps_others(
    c: Catalog,
    p: Product,
    id: u64,
    brand: Seq<char>,
    category: Seq<char>,
    query: Seq<char>,
    name_query: Option<Seq<char>>,
    category_filter: Option<Seq<char>>,
    brand_filter: Option<Seq<char>>,
)
    requires
        c.wf(),
        id != p.id,
    ensures
        brand_hits(c@.insert(p.id, p), brand).contains(id) == brand_hits(c@, brand).contains(id),
        category_hits(c@.insert(p.id, p), category).contains(id) == category_hits(
            c@,
            category,
        ).contains(id),
        name_hits(c@.insert(p.id, p), query).contains(id) == name_hits(c@, query).contains(id),
        search_hits(c@.insert(p.id, p), name_query, category_filter, brand_filter).contains(id)
            == search_hits(c@, name_query, category_filter, brand_filter).contains(id),
{
}

/// Adding the same product twice leaves the catalogue as one add does.
pub proof fn law_add_twice(c: Catalog, p: Product)
    requires
        c.wf(),
    ensures
        c@.insert(p.id, p).insert(p.id, p) == c@.insert(p.id, p),
{
    assert(c@.insert(p.id, p).insert(p.id, p) =~= c@.insert(p.id, p));
}

/// Adding two lists of products one after the other is adding their
/// concatenation; in particular `add_products` is `add_product` on each
/// item in turn, and for a repeated id the last item wins.
pub proof fn law_add_all_concat(c: Catalog, first: Seq<Product>, second: Seq<Product>)
    requires
        c.wf(),
    ensures
        add_all(c@, first + second) == add_all(add_all(c@, first), second),
    decreases second.len(),
{
    if second.len() == 0 {
        assert(first + second =~= first);
    } else {
        law_add_all_concat(c, first, second.drop_last());
        assert((first + second).drop_last() =~= first + second.drop_last());
        assert((first + second).last() == second.last());
    }
}

/// A removed product is gone: no id, brand, category, name or combined
/// search finds it any more, and every other product stays as it was.
pub proof fn law_gone_after_remove(
    c: Catalog,
    id: u64,
    brand: Seq<char>,
    category: Seq<char>,
    query: Seq<char>,
    name_query: Option<Seq<char>>,
    category_filter: Option<Seq<char>>,
    brand_filter: Option<Seq<char>>,
)
    requires
        c.wf(),
    ensures
        !c@.remove(id).contains_key(id),
        !brand_hits(c@.remove(id), brand).contains(id),
        !category_hits(c@.remove(id), category).contains(id),
        !name_hits(c@.remove(id), query).contains(id),
        !search_hits(c@.remove(id), name_query, category_filter, brand_filter).contains(id),
        forall|k: u64| k != id && #[trigger] c@.contains_key(k) ==> c@.remove(id).contains_key(k)
            && c@.remove(id)[k] == c@[k],
{
}

/// Removing a product just added under a new id gives back the catalogue
/// as it was, and with it every lookup and every search.
pub proof fn law_remove_undoes_add(c: Catalog, p: Product)
    requires
        c.wf(),
        !c@.contains_key(p.id),
    ensures
        c@.insert(p.id, p).remove(p.id) == c@,
{
    assert(c@.insert(p.id, p).remove(p.id) =~= c@);
}

/// Lookups by brand and by category see only the lower-cased words of the
/// key, and name searches only the set of lower-cased words of the query.
pub proof fn law_lookups_ignore_case(c: Catalog, a: Seq<char>, b: Seq<char>)
    requires
        c.wf(),
    ensures
        normalized(a) == normalized(b) ==> brand_hits(c@, a) == brand_hits(c@, b),
        normalized(a) == normalized(b) ==> category_hits(c@, a) == category_hits(c@, b),
        tokens(a).to_set() == tokens(b).to_set() ==> name_hits(c@, a) == name_hits(c@, b),
{
    let ta = tokens(a);
    let tb = tokens(b);
    if ta.to_set() == tb.to_set() {
        assert forall|id: u64| #[trigger] name_hits(c@, a).contains(id) == name_hits(c@, b).contains(id) by {
            if name_hits(c@, a).contains(id) {
                assert(ta.len() > 0);
                assert(ta.to_set().contains(ta[0]));
                assert forall|i: int| 0 <= i < tb.len() implies tokens(c@[id].name@).contains(#[trigger] tb[i]) by {
                    assert(tb.to_set().contains(tb[i]));
                    let j = choose|j: int| 0 <= j < ta.len() && ta[j] == tb[i];
                }
            }
            if name_hits(c@, b).contains(id) {
                assert(tb.len() > 0);
                assert(tb.to_set().contains(tb[0]));
                assert forall|i: int| 0 <= i < ta.len() implies tokens(c@[id].name@).contains(#[trigger] ta[i]) by {
                    assert(ta.to_set().contains(ta[i]));
                    let j = choose|j: int| 0 <= j < tb.len() && tb[j] == ta[i];
                }
            }
        }
        assert(name_hits(c@, a) =~= name_hits(c@, b));
    }
}

/// A search with no filter lists every product, and a blank name query is
/// no filter.
pub proof fn law_search_without_filters(
    c: Catalog,
    blank: Seq<char>,
    category_filter: Option<Seq<char>>,
    brand_filter: Option<Seq<char>>,
)
    requires
        c.wf(),
    ensures
        search_hits(c@, None, None, None) == c@.dom(),
        trimmed(blank).len() == 0 ==> search_hits(c@, Some(blank), category_filter, brand_filter)
            == search_hits(c@, None, category_filter, brand_filter),
{
    assert(search_hits(c@, None, None, None) =~= c@.dom());
    if trimmed(blank).len() == 0 {
        assert(search_hits(c@, Some(blank), category_filter, brand_filter) =~= search_hits(
            c@,
            None,
            category_filter,
            brand_filter,
        ));
    }
}

/// Each filter of a combined search finds what its own lookup finds, and
/// several filters find what all of them find.
pub proof fn law_search_is_intersection(
    c: Catalog,
    query: Seq<char>,
    category: Seq<char>,
    brand: Seq<char>,
)
    requires
        c.wf(),
    ensures
        trimmed(query).len() > 0 ==> search_hits(c@, Some(query), None, None) == name_hits(
            c@,
            query,
        ),
        search_hits(c@, None, Some(category), None) == category_hits(c@, category),
        search_hits(c@, None, None, Some(brand)) == brand_hits(c@, brand),
        trimmed(query).len() > 0 ==> search_hits(c@, Some(query), Some(category), Some(brand))
            == name_hits(c@, query).intersect(category_hits(c@, category)).intersect(
            brand_hits(c@, brand),
        ),
{
    assert(search_hits(c@, None, Some(category), None) =~= category_hits(c@, category));
    assert(search_hits(c@, None, None, Some(brand)) =~= brand_hits(c@, brand));
    if trimmed(query).len() > 0 {
        assert(search_hits(c@, Some(query), None, None) =~= name_hits(c@, query));
        assert(search_hits(c@, Some(query), Some(category), Some(brand)) =~= name_hits(
            c@,
            query,
        ).intersect(category_hits(c@, category)).intersect(brand_hits(c@, brand)));
    }
}

/// A further filter never widens a search.
pub proof fn law_filters_never_widen(
    c: Catalog,
    name_query: Option<Seq<char>>,
    category_filter: Option<Seq<char>>,
    brand_filter: Option<Seq<char>>,
    query: Seq<char>,
    category: Seq<char>,
    brand: Seq<char>,
)
    requires
        c.wf(),
    ensures
        search_hits(c@, Some(query), category_filter, brand_filter).subset_of(
            search_hits(c@, None, category_filter, brand_filter),
        ),
        search_hits(c@, name_query, Some(category), brand_filter).subset_of(
            search_hits(c@, name_query, None, brand_filter),
        ),
        search_hits(c@, name_query, category_filter, Some(brand)).subset_of(
            search_hits(c@, name_query, category_filter, None),
        ),
{
}

/// More words narrow a name search: a query finds only products that a
/// query made of some of its words also finds.
pub proof fn law_more_words_narrow(c: Catalog, longer: Seq<char>, shorter: Seq<char>)
    requires
        c.wf(),
        tokens(shorter).len() > 0,
        forall|i: int|
            0 <= i < tokens(shorter).len() ==> tokens(longer).contains(#[trigger] tokens(shorter)[i]),
    ensures
        name_hits(c@, longer).subset_of(name_hits(c@, shorter)),
{
    let tl = tokens(longer);
    let ts = tokens(shorter);
    assert forall|id: u64| #[trigger] name_hits(c@, longer).contains(id) implies name_hits(
        c@,
        shorter,
    ).contains(id) by {
        assert forall|i: int| 0 <= i < ts.len() implies tokens(c@[id].name@).contains(#[trigger] ts[i]) by {
            assert(tl.contains(ts[i]));
            let j = choose|j: int| 0 <= j < tl.len() && tl[j] == ts[i];
        }
    }
}

/// Adding a product with a new id counts one more product; adding one with
/// an id already present replaces it and keeps the count.
pub proof fn law_len_after_add(c: Catalog, p: Product)
    requires
        c.wf(),
    ensures
        c@.contains_key(p.id) ==> c@.insert(p.id, p).len() == c@.len(),
        !c@.contains_key(p.id) ==> c@.insert(p.id, p).len() == c@.len() + 1,
{
    c.lemma_products_finite();
}

/// Removing a product counts one product less.
pub proof fn law_len_after_remove(c: Catalog, id: u64)
    requires
        c.wf(),
        c@.contains_key(id),
    ensures
        c@.remove(id).len() == c@.len() - 1,
{
    c.lemma_products_finite();
}

/// On an empty catalogue every lookup and every search finds nothing.
pub proof fn law_empty_finds_nothing(
    brand: Seq<char>,
    category: Seq<char>,
    query: Seq<char>,
    name_query: Option<Seq<char>>,
    category_filter: Option<Seq<char>>,
    brand_filter: Option<Seq<char>>,
)
    ensures
        brand_hits(Map::empty(), brand).is_empty(),
        category_hits(Map::empty(), category).is_empty(),
        name_hits(Map::empty(), query).is_empty(),
        search_hits(Map::empty(), name_query, category_filter, brand_filter).is_empty(),
{
    let m = Map::<u64, Product>::empty();
    assert(brand_hits(m, brand) =~= Set::empty());
    assert(category_hits(m, category) =~= Set::empty());
    assert(name_hits(m, query) =~= Set::empty());
    assert(search_hits(m, name_query, category_filter, brand_filter) =~= Set::empty());
}

/// `x` and `y` are the same character, or the same Latin-1 letter once in
/// upper case and once in lower case (A to Z and U+00C0 to U+00DE except
/// the multiplication sign, against the letter 0x20 above).
pub open spec fn same_ignoring_case(x: char, y: char) -> bool {
    let vx = x as int;
    let vy = y as int;
    ||| x == y
    ||| (0x41 <= vx <= 0x5a || (0xc0 <= vx <= 0xde && vx != 0xd7)) && vy == vx + 0x20
    ||| (0x41 <= vy <= 0x5a || (0xc0 <= vy <= 0xde && vy != 0xd7)) && vx == vy + 0x20
}

/// `a` and `b` are Latin-1 text that differs at most in the case of letters.
pub open spec fn differ_only_in_case(a: Seq<char>, b: Seq<char>) -> bool {
    &&& a.len() == b.len()
    &&& forall|i: int| 0 <= i < a.len() ==> (a[i] as int) <= 0xff && (b[i] as int) <= 0xff
    &&& forall|i: int| 0 <= i < a.len() ==> same_ignoring_case(#[trigger] a[i], b[i])
}

proof fn lemma_lowered_equal(a: Seq<char>, b: Seq<char>)
    requires
        differ_only_in_case(a, b),
    ensures
        all_latin1(a),
        all_latin1(b),
        lowered(a) == lowered(b),
{
    assert forall|i: int| 0 <= i < a.len() implies lowered(a)[i] == lowered(b)[i] by {
        let x = a[i];
        let y = b[i];
        assert(same_ignoring_case(x, y));
        assert(lowered(a)[i] == lower_char(x));
        assert(lowered(b)[i] == lower_char(y));
    }
    assert(lowered(a) =~= lowered(b));
}

/// Letter case does not matter to words: Latin-1 texts that differ only in
/// the case of letters have the same tokens and the same index key.
pub proof fn law_tokens_ignore_letter_case(a: Seq<char>, b: Seq<char>)
    requires
        differ_only_in_case(a, b),
    ensures
        tokens(a) == tokens(b),
        normalized(a) == normalized(b),
{
    lemma_lowered_equal(a, b);
    lemma_tokens_case(a, b);
}

/// Letter case does not matter to lookups: on every catalogue, brands,
/// categories and name queries that differ only in the case of letters find
/// the same products.
pub proof fn law_lookups_ignore_letter_case(c: Catalog, a: Seq<char>, b: Seq<char>)
    requires
        c.wf(),
        differ_only_in_case(a, b),
    ensures
        brand_hits(c@, a) == brand_hits(c@, b),
        category_hits(c@, a) == category_hits(c@, b),
        name_hits(c@, a) == name_hits(c@, b),
{
    law_tokens_ignore_letter_case(a, b);
}

/// Tokens are lower case and free of punctuation: in the tokens of Latin-1
/// text every character is Latin-1, none is an upper-case letter, and every
/// ASCII one is a digit or a lower-case letter; no token is empty.
pub proof fn law_tokens_are_lower_case_words(s: Seq<char>)
    requires
        forall|i: int| 0 <= i < s.len() ==> (#[trigger] s[i] as int) <= 0xff,
    ensures
        forall|j: int| 0 <= j < tokens(s).len() ==> #[trigger] tokens(s)[j].len() > 0,
        forall|j: int, k: int|
            0 <= j < tokens(s).len() && 0 <= k < tokens(s)[j].len() ==> {
                let v = #[trigger] tokens(s)[j][k] as int;
                &&& v <= 0xff
                &&& !(0x41 <= v <= 0x5a)
                &&& !(0xc0 <= v <= 0xde && v != 0xd7)
                &&& v < 0x80 ==> (0x30 <= v <= 0x39 || 0x61 <= v <= 0x7a)
            },
{
    assert(all_latin1(s));
    lemma_tokens_shape(s);
}

/// Punctuation, symbols and spaces of ASCII separate words: the tokens of
/// `a`, such a character and `b` are the tokens of `a` followed by those of
/// `b`.
pub proof fn law_ascii_punctuation_separates_words(a: Seq<char>, sep: char, b: Seq<char>)
    requires
        (sep as int) < 0x80,
        !(0x30 <= (sep as int) <= 0x39),
        !(0x41 <= (sep as int) <= 0x5a),
        !(0x61 <= (sep as int) <= 0x7a),
    ensures
        tokens(a + seq![sep] + b) == tokens(a) + tokens(b),
{
    lemma_tokens_split(a, sep, b);
}

/// Every character that is not alphanumeric separates words the same way.
pub proof fn law_separator_splits_words(a: Seq<char>, sep: char, b: Seq<char>)
    requires
        !crate::text::alphanumeric(sep),
    ensures
        tokens(a + seq![sep] + b) == tokens(a) + tokens(b),
{
    lemma_tokens_split(a, sep, b);
}

} // verus!
