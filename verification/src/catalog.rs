//! The catalogue: products by id, and inverted indexes by brand, by
//! category and by the words of the product name.
use std::collections::HashMap;
use std::collections::HashSet;
use vstd::prelude::*;
use vstd::std_specs::hash::spec_hash_keys_iter;
use vstd::std_specs::iter::IteratorSpec;

use crate::key_index::{ids_under, KeyIndex};
use crate::product::Product;
use crate::text::{
    lemma_take_one_more, normalize, normalized, strings_view, tokenize, tokens, trim, trimmed,
};

verus! {

broadcast use {vstd::std_specs::hash::group_hash_axioms, vstd::hash_map::group_hash_map_axioms};

/// The ids of the products whose brand normalises to `key`.
pub open spec fn with_brand(ps: Map<u64, Product>, key: Seq<char>) -> Set<u64> {
    Set::new(|id: u64| ps.contains_key(id) && normalized(ps[id].brand@) == key)
}

/// The ids of the products whose category normalises to `key`.
pub open spec fn with_category(ps: Map<u64, Product>, key: Seq<char>) -> Set<u64> {
    Set::new(|id: u64| ps.contains_key(id) && normalized(ps[id].category@) == key)
}

/// The ids of the products that have `word` among the words of their name.
pub open spec fn with_word(ps: Map<u64, Product>, word: Seq<char>) -> Set<u64> {
    Set::new(|id: u64| ps.contains_key(id) && tokens(ps[id].name@).contains(word))
}

/// The ids of the products whose names hold every word of `ts`; none where
/// `ts` is empty.
pub open spec fn with_all_words(ps: Map<u64, Product>, ts: Seq<Seq<char>>) -> Set<u64> {
    Set::new(
        |id: u64|
            ps.contains_key(id) && ts.len() > 0 && forall|i: int|
                0 <= i < ts.len() ==> tokens(ps[id].name@).contains(#[trigger] ts[i]),
    )
}

/// The ids of the products that `find_by_brand(brand)` lists: those whose
/// brand has the same words as `brand`, ignoring case and punctuation.
pub open spec fn brand_hits(ps: Map<u64, Product>, brand: Seq<char>) -> Set<u64> {
    with_brand(ps, normalized(brand))
}

/// The ids of the products that `find_by_category(category)` lists.
pub open spec fn category_hits(ps: Map<u64, Product>, category: Seq<char>) -> Set<u64> {
    with_category(ps, normalized(category))
}

/// The ids of the products that `search_by_name(query)` lists: those whose
/// names hold every word of the query.
pub open spec fn name_hits(ps: Map<u64, Product>, query: Seq<char>) -> Set<u64> {
    with_all_words(ps, tokens(query))
}

/// The ids of the products that `search(name_query, category, brand)`
/// lists: those that pass every filter given. A name query that is blank
/// once trimmed filters nothing.
pub open spec fn search_hits(
    ps: Map<u64, Product>,
    name_query: Option<Seq<char>>,
    category: Option<Seq<char>>,
    brand: Option<Seq<char>>,
) -> Set<u64> {
    Set::new(
        |id: u64|
            {
                &&& ps.contains_key(id)
                &&& match name_query {
                    Some(q) => trimmed(q).len() == 0 || name_hits(ps, q).contains(id),
                    None => true,
                }
                &&& match category {
                    Some(c) => category_hits(ps, c).contains(id),
                    None => true,
                }
                &&& match brand {
                    Some(b) => brand_hits(ps, b).contains(id),
                    None => true,
                }
            },
    )
}

/// The products after each product of `items` is added in order: a later
/// product replaces an earlier one with the same id.
pub open spec fn add_all(ps: Map<u64, Product>, items: Seq<Product>) -> Map<u64, Product>
    decreases items.len(),
{
    if items.len() == 0 {
        ps
    } else {
        add_all(ps, items.drop_last()).insert(items.last().id, items.last())
    }
}

/// The characters of an optional string.
pub open spec fn opt_view(o: Option<&str>) -> Option<Seq<char>> {
    match o {
        Some(s) => Some(s@),
        None => None,
    }
}

/// `r` lists, once each and in some order, exactly the products of
/// `products` whose ids are in `ids`.
pub open spec fn lists(r: Seq<&Product>, ids: Set<u64>, products: Map<u64, Product>) -> bool {
    &&& forall|i: int|
        0 <= i < r.len() ==> {
            &&& ids.contains(#[trigger] r[i].id)
            &&& products.contains_key(r[i].id)
            &&& products[r[i].id] == *r[i]
        }
    &&& forall|id: u64|
        ids.contains(id) && #[trigger] products.contains_key(id) ==> exists|i: int|
            0 <= i < r.len() && (#[trigger] r[i]).id == id
    &&& forall|i: int, j: int| 0 <= i < j < r.len() ==> (#[trigger] r[i]).id != (#[trigger] r[j]).id
}

/// `m` with `id` filed under every key of `ks`.
spec fn file_under_all(m: Map<Seq<char>, Set<u64>>, ks: Seq<Seq<char>>, id: u64) -> Map<
    Seq<char>,
    Set<u64>,
> {
    Map::new(
        |k: Seq<char>| m.contains_key(k) || ks.contains(k),
        |k: Seq<char>|
            if ks.contains(k) {
                ids_under(m, k).insert(id)
            } else {
                m[k]
            },
    )
}

/// `m` with `id` taken out of the set of every key of `ks` that `m` has;
/// the keys themselves stay.
spec fn unfile_from_all(m: Map<Seq<char>, Set<u64>>, ks: Seq<Seq<char>>, id: u64) -> Map<
    Seq<char>,
    Set<u64>,
> {
    Map::new(
        |k: Seq<char>| m.contains_key(k),
        |k: Seq<char>|
            if ks.contains(k) {
                m[k].remove(id)
            } else {
                m[k]
            },
    )
}

/// The ids filed under every one of the words `ts`; none where `ts` is empty.
spec fn filed_under_every(m: Map<Seq<char>, Set<u64>>, ts: Seq<Seq<char>>) -> Set<u64> {
    Set::new(
        |id: u64|
            ts.len() > 0 && forall|i: int| 0 <= i < ts.len() ==> #[trigger] ids_under(m, ts[i]).contains(id),
    )
}

/// The ids filed under each of the first `n` words of `ts`.
spec fn filed_under_first(m: Map<Seq<char>, Set<u64>>, ts: Seq<Seq<char>>, n: int) -> Set<u64> {
    Set::new(|id: u64| forall|i: int| 0 <= i < n ==> #[trigger] ids_under(m, ts[i]).contains(id))
}

/// The set held by an optional id set.
spec fn opt_ids_view(o: Option<HashSet<u64>>) -> Option<Set<u64>> {
    match o {
        Some(s) => Some(s@),
        None => None,
    }
}

/// One optional filter applied to the ids chosen so far (`None`: no filter
/// applied yet): the first filter chooses its own set, each further one
/// intersects.
spec fn narrow(acc: Option<Set<u64>>, filter: Option<Set<u64>>) -> Option<Set<u64>> {
    match filter {
        None => acc,
        Some(s) => Some(
            match acc {
                None => s,
                Some(a) => a.intersect(s),
            },
        ),
    }
}

/// The filters of `search`, applied one after the other.
spec fn narrowed(
    ps: Map<u64, Product>,
    name_query: Option<Seq<char>>,
    category: Option<Seq<char>>,
    brand: Option<Seq<char>>,
) -> Option<Set<u64>> {
    let by_text = narrow(
        None,
        match name_query {
            Some(q) => if trimmed(q).len() > 0 {
                Some(name_hits(ps, q))
            } else {
                None
            },
            None => None,
        },
    );
    let by_category = narrow(
        by_text,
        match category {
            Some(c) => Some(category_hits(ps, c)),
            None => None,
        },
    );
    narrow(
        by_category,
        match brand {
            Some(b) => Some(brand_hits(ps, b)),
            None => None,
        },
    )
}

/// Applying the filters one after the other lists what `search_hits` says.
proof fn lemma_narrowed(
    ps: Map<u64, Product>,
    name_query: Option<Seq<char>>,
    category: Option<Seq<char>>,
    brand: Option<Seq<char>>,
)
    ensures
        search_hits(ps, name_query, category, brand) == match narrowed(ps, name_query, category, brand) {
            None => ps.dom(),
            Some(s) => s.intersect(ps.dom()),
        },
{
    let goal = match narrowed(ps, name_query, category, brand) {
        None => ps.dom(),
        Some(s) => s.intersect(ps.dom()),
    };
    assert(search_hits(ps, name_query, category, brand) =~= goal);
}

/// Where an index files under every key exactly the products with that
/// word, the ids filed under every word of `ts` that have a product are
/// those whose names hold every word of `ts`.
proof fn lemma_every_word(m: Map<Seq<char>, Set<u64>>, ps: Map<u64, Product>, ts: Seq<Seq<char>>)
    requires
        forall|k: Seq<char>| #[trigger] ids_under(m, k) == with_word(ps, k),
    ensures
        filed_under_every(m, ts).intersect(ps.dom()) == with_all_words(ps, ts),
{
    assert forall|id: u64| #[trigger] with_all_words(ps, ts).contains(id) <==> filed_under_every(m, ts).intersect(ps.dom()).contains(id) by {
        if filed_under_every(m, ts).intersect(ps.dom()).contains(id) {
            assert forall|i: int| 0 <= i < ts.len() implies tokens(ps[id].name@).contains(#[trigger] ts[i]) by {
                assert(ids_under(m, ts[i]).contains(id));
                assert(ids_under(m, ts[i]) == with_word(ps, ts[i]));
            }
        }
        if with_all_words(ps, ts).contains(id) {
            assert forall|i: int| 0 <= i < ts.len() implies #[trigger] ids_under(m, ts[i]).contains(id) by {
                assert(ids_under(m, ts[i]) == with_word(ps, ts[i]));
                assert(tokens(ps[id].name@).contains(ts[i]));
            }
        }
    }
    assert(filed_under_every(m, ts).intersect(ps.dom()) =~= with_all_words(ps, ts));
}

/// A copy of the set `s`.
fn copy_ids(s: &HashSet<u64>) -> (r: HashSet<u64>)
    ensures
        r@ == s@,
{
    let mut r: HashSet<u64> = HashSet::new();
    let ghost order = spec_hash_keys_iter(s).remaining();
    let ghost mut k: int = 0;
    for id in it: s.iter()
        invariant
            it.seq() == order,
            k == it.index(),
            order.unref().to_set() == s@,
            r@ == order.take(k).unref().to_set(),
    {
        r.insert(*id);
        proof {
            assert(order.take(k + 1).unref() =~= order.take(k).unref().push(*id));
            order.take(k).unref().lemma_push_to_set_commute(*id);
            k = k + 1;
        }
    }
    proof {
        assert(order.take(k) =~= order);
    }
    r
}

/// The ids that are in both `a` and `b`.
fn intersect(a: &HashSet<u64>, b: &HashSet<u64>) -> (r: HashSet<u64>)
    ensures
        r@ == a@.intersect(b@),
{
    let mut r: HashSet<u64> = HashSet::new();
    let ghost order = spec_hash_keys_iter(a).remaining();
    let ghost mut k: int = 0;
    for id in it: a.iter()
        invariant
            it.seq() == order,
            k == it.index(),
            order.unref().to_set() == a@,
            r@ == order.take(k).unref().to_set().intersect(b@),
    {
        proof {
            assert(order.take(k + 1).unref() =~= order.take(k).unref().push(*id));
            order.take(k).unref().lemma_push_to_set_commute(*id);
        }
        if b.contains(id) {
            r.insert(*id);
        }
        assert(r@ =~= order.take(k + 1).unref().to_set().intersect(b@));
        proof {
            k = k + 1;
        }
    }
    proof {
        assert(order.take(k) =~= order);
    }
    r
}

/// Applies one more filter to the ids chosen so far: the first filter's
/// set is taken as it is, each later one is intersected with it.
fn merge(acc: Option<HashSet<u64>>, new: HashSet<u64>) -> (r: HashSet<u64>)
    ensures
        r@ == match acc {
            None => new@,
            Some(prev) => prev@.intersect(new@),
        },
{
    match acc {
        None => new,
        Some(prev) => intersect(&prev, &new),
    }
}

/// Files `id` under each of `words`.
fn file_words(index: &mut KeyIndex, words: &Vec<String>, id: u64)
    requires
        old(index).wf(),
    ensures
        final(index).wf(),
        final(index)@ == file_under_all(old(index)@, strings_view(words@), id),
{
    let ghost ts = strings_view(words@);
    let ghost start = index@;
    let n = words.len();
    let mut i: usize = 0;
    proof {
        assert(file_under_all(start, ts.take(0), id) =~= start);
    }
    while i < n
        invariant
            i <= n == words.len(),
            ts == strings_view(words@),
            index.wf(),
            index@ == file_under_all(start, ts.take(i as int), id),
        decreases n - i,
    {
        let ghost before = index@;
        index.add(words[i].clone(), id);
        proof {
            let t = ts[i as int];
            assert(words[i as int]@ == t);
            lemma_take_one_more(ts, i as int);
            let goal = file_under_all(start, ts.take(i + 1), id);
            assert forall|k: Seq<char>| #[trigger] index@.contains_key(k) implies index@[k]
                =~= goal[k] by {
                if k == t && ts.take(i as int).contains(t) {
                    assert(ids_under(before, t) =~= ids_under(start, t).insert(id));
                }
            }
            assert(index@ =~= goal);
        }
        i = i + 1;
    }
    proof {
        assert(ts.take(n as int) =~= ts);
    }
}

/// Takes `id` out of the set of each of `words` that the index has.
fn unfile_words(index: &mut KeyIndex, words: &Vec<String>, id: u64)
    requires
        old(index).wf(),
    ensures
        final(index).wf(),
        final(index)@ == unfile_from_all(old(index)@, strings_view(words@), id),
{
    let ghost ts = strings_view(words@);
    let ghost start = index@;
    let n = words.len();
    let mut i: usize = 0;
    proof {
        assert(unfile_from_all(start, ts.take(0), id) =~= start);
    }
    while i < n
        invariant
            i <= n == words.len(),
            ts == strings_view(words@),
            index.wf(),
            index@ == unfile_from_all(start, ts.take(i as int), id),
        decreases n - i,
    {
        let ghost before = index@;
        index.remove(words[i].as_str(), id);
        proof {
            let t = ts[i as int];
            assert(words[i as int]@ == t);
            lemma_take_one_more(ts, i as int);
            let goal = unfile_from_all(start, ts.take(i + 1), id);
            assert forall|k: Seq<char>| #[trigger] index@.contains_key(k) implies index@[k]
                =~= goal[k] by {
                if k == t && ts.take(i as int).contains(t) {
                    assert(before[t] =~= start[t].remove(id));
                }
            }
            assert(index@ =~= goal);
        }
        i = i + 1;
    }
    proof {
        assert(ts.take(n as int) =~= ts);
    }
}

/// A list lists the ids of `ids` that have a product exactly when it lists
/// those of `ids` restricted to the products.
proof fn lemma_lists_restrict(r: Seq<&Product>, ids: Set<u64>, products: Map<u64, Product>)
    ensures
        lists(r, ids, products) == lists(r, ids.intersect(products.dom()), products),
{
}

/// The ids of the products of `r`.
fn ids_of(r: &Vec<&Product>) -> (s: HashSet<u64>)
    ensures
        forall|id: u64| s@.contains(id) <==> exists|i: int| 0 <= i < r@.len() && (#[trigger] r@[i]).id == id,
{
    let mut s: HashSet<u64> = HashSet::new();
    let n = r.len();
    let mut i: usize = 0;
    while i < n
        invariant
            i <= n == r.len(),
            forall|id: u64| s@.contains(id) <==> exists|j: int| 0 <= j < i && (#[trigger] r@[j]).id == id,
        decreases n - i,
    {
        s.insert(r[i].id);
        proof {
            assert forall|id: u64| s@.contains(id) <==> exists|j: int| 0 <= j < i + 1 && (#[trigger] r@[j]).id == id by {
                if s@.contains(id) && id != r@[i as int].id {
                    let j = choose|j: int| 0 <= j < i && (#[trigger] r@[j]).id == id;
                }
                if id == r@[i as int].id {
                    assert(r@[i as int].id == id);
                }
            }
        }
        i = i + 1;
    }
    s
}

/// A product catalogue with indexes for fast lookups by id, brand,
/// category and name words. Every lookup ignores case and punctuation.
pub struct Catalog {
    by_id: HashMap<u64, Product>,
    by_brand: KeyIndex,
    by_category: KeyIndex,
    name_index: KeyIndex,
}

impl View for Catalog {
    type V = Map<u64, Product>;

    /// The products, by id.
    closed spec fn view(&self) -> Map<u64, Product> {
        self.by_id@
    }
}

impl Default for Catalog {
    fn default() -> (c: Catalog)
        ensures
            c.wf(),
            c@ == Map::<u64, Product>::empty(),
    {
        Catalog::new()
    }
}

impl Catalog {
    /// Ids agree with their products, and every index files under each key
    /// exactly the ids of the products with that brand, that category or
    /// that name word.
    pub closed spec fn wf(&self) -> bool {
        &&& forall|k: u64| #[trigger] self.by_id@.contains_key(k) ==> self.by_id@[k].id == k
        &&& self.by_brand.wf()
        &&& self.by_category.wf()
        &&& self.name_index.wf()
        &&& forall|k: Seq<char>| #[trigger] ids_under(self.by_brand@, k) == with_brand(self.by_id@, k)
        &&& forall|k: Seq<char>| #[trigger] ids_under(self.by_category@, k) == with_category(self.by_id@, k)
        &&& forall|k: Seq<char>| #[trigger] ids_under(self.name_index@, k) == with_word(self.by_id@, k)
    }

    /// The products of a catalogue are finitely many.
    pub proof fn lemma_products_finite(&self)
        requires
            self.wf(),
        ensures
            self@.dom().finite(),
    {
    }

    /// An empty catalogue.
    pub fn new() -> (c: Catalog)
        ensures
            c.wf(),
            c@ == Map::<u64, Product>::empty(),
    {
        let c = Catalog {
            by_id: HashMap::new(),
            by_brand: KeyIndex::new(),
            by_category: KeyIndex::new(),
            name_index: KeyIndex::new(),
        };
        proof {
            assert forall|k: Seq<char>| #[trigger] ids_under(c.by_brand@, k) == with_brand(c.by_id@, k) by {
                assert(ids_under(c.by_brand@, k) =~= with_brand(c.by_id@, k));
            }
            assert forall|k: Seq<char>| #[trigger] ids_under(c.by_category@, k) == with_category(c.by_id@, k) by {
                assert(ids_under(c.by_category@, k) =~= with_category(c.by_id@, k));
            }
            assert forall|k: Seq<char>| #[trigger] ids_under(c.name_index@, k) == with_word(c.by_id@, k) by {
                assert(ids_under(c.name_index@, k) =~= with_word(c.by_id@, k));
            }
        }
        c
    }

    /// The number of products.
    pub fn len(&self) -> (n: usize)
        requires
            self.wf(),
        ensures
            n == self@.len(),
    {
        self.by_id.len()
    }

    /// Whether the catalogue holds no product.
    pub fn is_empty(&self) -> (b: bool)
        requires
            self.wf(),
        ensures
            b == (self@.len() == 0),
    {
        proof {
            assert(self.by_id@.dom().finite());
            if self.by_id@.dom().len() == 0 {
                assert(self.by_id@.dom() =~= Set::<u64>::empty());
                assert(self.by_id@ =~= Map::<u64, Product>::empty());
            }
        }
        self.by_id.is_empty()
    }

    /// Adds a product and files it in every index: under its brand, its
    /// category and each word of its name. A product with the same id is
    /// replaced, and taken out of the indexes first.
    pub fn add_product(&mut self, product: Product)
        requires
            old(self).wf(),
        ensures
            final(self).wf(),
            final(self)@ == old(self)@.insert(product.id, product),
    {
        let id = product.id;
        if self.by_id.contains_key(&id) {
            let _replaced = self.remove_product(id);
        }
        let ghost ps = self.by_id@;
        let ghost b0 = self.by_brand@;
        let ghost c0 = self.by_category@;
        let ghost w0 = self.name_index@;
        let brand_key = normalize(product.brand.as_str());
        self.by_brand.add(brand_key, id);
        let category_key = normalize(product.category.as_str());
        self.by_category.add(category_key, id);
        let words = tokenize(product.name.as_str());
        file_words(&mut self.name_index, &words, id);
        self.by_id.insert(id, product);
        proof {
            let ps2 = self.by_id@;
            assert(ps2 =~= old(self)@.insert(id, product));
            assert forall|k: Seq<char>| #[trigger] ids_under(self.by_brand@, k) == with_brand(ps2, k) by {
                assert(ids_under(b0, k) == with_brand(ps, k));
                assert(ids_under(self.by_brand@, k) =~= with_brand(ps2, k));
            }
            assert forall|k: Seq<char>| #[trigger] ids_under(self.by_category@, k) == with_category(ps2, k) by {
                assert(ids_under(c0, k) == with_category(ps, k));
                assert(ids_under(self.by_category@, k) =~= with_category(ps2, k));
            }
            assert forall|k: Seq<char>| #[trigger] ids_under(self.name_index@, k) == with_word(ps2, k) by {
                assert(ids_under(w0, k) == with_word(ps, k));
                assert(ids_under(self.name_index@, k) =~= with_word(ps2, k));
            }
        }
    }

    /// Lists the products of `ids`, each once; ids with no product are
    /// skipped.
    fn collect<'a>(&'a self, ids: &HashSet<u64>) -> (r: Vec<&'a Product>)
        requires
            self.wf(),
        ensures
            lists(r@, ids@, self@),
    {
        let mut r: Vec<&'a Product> = Vec::new();
        let ghost order = spec_hash_keys_iter(ids).remaining();
        let ghost mut k: int = 0;
        for id in it: ids.iter()
            invariant
                self.wf(),
                it.seq() == order,
                k == it.index(),
                order.unref().to_set() == ids@,
                order.no_duplicates(),
                lists(r@, order.take(k).unref().to_set(), self.by_id@),
        {
            let ghost seen = order.take(k).unref().to_set();
            let ghost seen2 = order.take(k + 1).unref().to_set();
            proof {
                assert(order.take(k + 1).unref() =~= order.take(k).unref().push(*id));
                order.take(k).unref().lemma_push_to_set_commute(*id);
                assert(!seen.contains(*id)) by {
                    if seen.contains(*id) {
                        let j = choose|j: int| 0 <= j < k && #[trigger] order.take(k).unref()[j] == *id;
                        assert(order[j] == order[k]);
                    }
                }
            }
            let ghost before = r@;
            match self.by_id.get(id) {
                Some(p) => {
                    r.push(p);
                    proof {
                        assert forall|x: u64| seen2.contains(x) && #[trigger] self.by_id@.contains_key(x) implies exists|i: int|
                            0 <= i < r@.len() && (#[trigger] r@[i]).id == x by {
                            if x == *id {
                                assert(r@[r@.len() - 1].id == x);
                            } else {
                                let i = choose|i: int| 0 <= i < before.len() && (#[trigger] before[i]).id == x;
                                assert(r@[i] == before[i]);
                            }
                        }
                    }
                },
                None => {
                    proof {
                        assert forall|x: u64| seen2.contains(x) && #[trigger] self.by_id@.contains_key(x) implies exists|i: int|
                            0 <= i < r@.len() && (#[trigger] r@[i]).id == x by {
                            assert(x != *id);
                        }
                    }
                },
            }
            proof {
                k = k + 1;
            }
        }
        proof {
            assert(order.take(k) =~= order);
        }
        r
    }

    /// Lists every product, each once.
    fn all_products(&self) -> (r: Vec<&Product>)
        requires
            self.wf(),
        ensures
            lists(r@, self@.dom(), self@),
    {
        let mut r: Vec<&Product> = Vec::new();
        let ghost order = vstd::std_specs::hash::spec_hash_map_iter(&self.by_id).remaining();
        let ghost mut k: int = 0;
        for kv in it: self.by_id.iter()
            invariant
                self.wf(),
                it.seq() == order,
                k == it.index(),
                order.no_duplicates(),
                order.len() == self.by_id@.dom().len(),
                forall|i: int| 0 <= i < order.len() ==> self.by_id@.contains_key(*(#[trigger] order[i]).0) && self.by_id@[*order[i].0] == *order[i].1,
                forall|key: u64| #[trigger] self.by_id@.contains_key(key) ==> order.contains((&key, &self.by_id@[key])),
                r@.len() == k,
                forall|i: int| 0 <= i < k ==> #[trigger] r@[i] == order[i].1,
        {
            r.push(kv.1);
            proof {
                k = k + 1;
            }
        }
        proof {
            let products = self.by_id@;
            assert forall|id: u64| #[trigger] products.contains_key(id) implies exists|i: int|
                0 <= i < r@.len() && (#[trigger] r@[i]).id == id by {
                let j = choose|j: int| 0 <= j < order.len() && #[trigger] order[j] == (&id, &products[id]);
                assert(r@[j] == order[j].1);
            }
            assert forall|i: int, j: int| 0 <= i < j < r@.len() implies (#[trigger] r@[i]).id != (#[trigger] r@[j]).id by {
                if r@[i].id == r@[j].id {
                    assert(*order[i].0 == r@[i].id);
                    assert(*order[j].0 == r@[j].id);
                    assert(order[i] == order[j]);
                }
            }
        }
        r
    }

    /// Takes the product with id `id` out of the catalogue and out of the
    /// indexes of its brand, its category and its name words, and returns
    /// it; `None`, with nothing changed, where there is none.
    pub fn remove_product(&mut self, id: u64) -> (r: Option<Product>)
        requires
            old(self).wf(),
        ensures
            final(self).wf(),
            match r {
                Some(p) => {
                    &&& old(self)@.contains_key(id)
                    &&& p == old(self)@[id]
                    &&& final(self)@ == old(self)@.remove(id)
                },
                None => {
                    &&& !old(self)@.contains_key(id)
                    &&& final(self)@ == old(self)@
                },
            },
    {
        let ghost ps = self.by_id@;
        let ghost b0 = self.by_brand@;
        let ghost c0 = self.by_category@;
        let ghost w0 = self.name_index@;
        let product = match self.by_id.remove(&id) {
            Some(p) => p,
            None => {
                assert(self.by_id@ =~= ps);
                return None;
            },
        };
        let brand_key = normalize(product.brand.as_str());
        self.by_brand.remove(brand_key.as_str(), id);
        let category_key = normalize(product.category.as_str());
        self.by_category.remove(category_key.as_str(), id);
        let words = tokenize(product.name.as_str());
        unfile_words(&mut self.name_index, &words, id);
        proof {
            let ps2 = self.by_id@;
            assert(ps2 =~= ps.remove(id));
            assert forall|k: Seq<char>| #[trigger] ids_under(self.by_brand@, k) == with_brand(ps2, k) by {
                assert(ids_under(b0, k) == with_brand(ps, k));
                assert(ids_under(self.by_brand@, k) =~= with_brand(ps2, k));
            }
            assert forall|k: Seq<char>| #[trigger] ids_under(self.by_category@, k) == with_category(ps2, k) by {
                assert(ids_under(c0, k) == with_category(ps, k));
                assert(ids_under(self.by_category@, k) =~= with_category(ps2, k));
            }
            assert forall|k: Seq<char>| #[trigger] ids_under(self.name_index@, k) == with_word(ps2, k) by {
                assert(ids_under(w0, k) == with_word(ps, k));
                assert(ids_under(self.name_index@, k) =~= with_word(ps2, k));
            }
        }
        Some(product)
    }

    /// The product with id `id`, if there is one.
    pub fn find_by_id(&self, id: u64) -> (r: Option<&Product>)
        requires
            self.wf(),
        ensures
            match r {
                Some(p) => self@.contains_key(id) && *p == self@[id],
                None => !self@.contains_key(id),
            },
    {
        self.by_id.get(&id)
    }

    /// The products of `brand`, compared by their words, ignoring case and
    /// punctuation.
    pub fn find_by_brand(&self, brand: &str) -> (r: Vec<&Product>)
        requires
            self.wf(),
        ensures
            lists(r@, brand_hits(self@, brand@), self@),
    {
        let key = normalize(brand);
        proof {
            assert(ids_under(self.by_brand@, key@) == with_brand(self.by_id@, key@));
        }
        match self.by_brand.get(key.as_str()) {
            Some(ids) => self.collect(ids),
            None => Vec::new(),
        }
    }

    /// The products of `category`, compared by their words, ignoring case
    /// and punctuation.
    pub fn find_by_category(&self, category: &str) -> (r: Vec<&Product>)
        requires
            self.wf(),
        ensures
            lists(r@, category_hits(self@, category@), self@),
    {
        let key = normalize(category);
        proof {
            assert(ids_under(self.by_category@, key@) == with_category(self.by_id@, key@));
        }
        match self.by_category.get(key.as_str()) {
            Some(ids) => self.collect(ids),
            None => Vec::new(),
        }
    }

    /// The products whose names hold every word of `query` (compared
    /// without case; any non-alphanumeric character separates words). A
    /// query with no word finds nothing.
    pub fn search_by_name(&self, query: &str) -> (r: Vec<&Product>)
        requires
            self.wf(),
        ensures
            lists(r@, name_hits(self@, query@), self@),
    {
        let words = tokenize(query);
        let ghost ts = strings_view(words@);
        let ghost m = self.name_index@;
        let n = words.len();
        proof {
            lemma_every_word(m, self.by_id@, ts);
        }
        if n == 0 {
            assert(filed_under_every(m, ts) =~= Set::<u64>::empty());
            assert(name_hits(self@, query@) =~= Set::<u64>::empty());
            return Vec::new();
        }
        let mut result_ids = match self.name_index.get(words[0].as_str()) {
            Some(set) => copy_ids(set),
            None => {
                assert(filed_under_every(m, ts) =~= Set::<u64>::empty()) by {
                    assert(words[0]@ == ts[0]);
                    assert forall|id: u64| !filed_under_every(m, ts).contains(id) by {
                        assert(!ids_under(m, ts[0]).contains(id));
                    }
                }
                assert(name_hits(self@, query@) =~= Set::<u64>::empty());
                return Vec::new();
            },
        };
        proof {
            assert(words[0]@ == ts[0]);
            assert forall|id: u64| #[trigger] result_ids@.contains(id) <==> filed_under_first(m, ts, 1).contains(id) by {
                if result_ids@.contains(id) {
                    assert forall|j: int| 0 <= j < 1 implies #[trigger] ids_under(m, ts[j]).contains(id) by {
                        assert(j == 0);
                    }
                }
                if filed_under_first(m, ts, 1).contains(id) {
                    assert(ids_under(m, ts[0]).contains(id));
                }
            }
            assert(result_ids@ =~= filed_under_first(m, ts, 1));
        }
        let mut i: usize = 1;
        while i < n
            invariant
                1 <= i <= n == words.len(),
                ts == strings_view(words@),
                ts == tokens(query@),
                m == self.name_index@,
                self.wf(),
                result_ids@ == filed_under_first(m, ts, i as int),
            decreases n - i,
        {
            proof {
                assert(words[i as int]@ == ts[i as int]);
            }
            match self.name_index.get(words[i].as_str()) {
                Some(set) => {
                    let ghost prev = result_ids@;
                    result_ids = intersect(&result_ids, set);
                    proof {
                        let f = filed_under_first(m, ts, i as int);
                        let g = filed_under_first(m, ts, i + 1);
                        assert(set@ == ids_under(m, ts[i as int]));
                        assert forall|id: u64| #[trigger] result_ids@.contains(id) <==> g.contains(id) by {
                            if result_ids@.contains(id) {
                                assert(f.contains(id));
                                assert forall|j: int| 0 <= j < i + 1 implies #[trigger] ids_under(m, ts[j]).contains(id) by {
                                    if j < i {
                                        assert(0 <= j < i);
                                    }
                                }
                            }
                            if g.contains(id) {
                                assert forall|j: int| 0 <= j < i implies #[trigger] ids_under(m, ts[j]).contains(id) by {
                                    assert(0 <= j < i + 1);
                                }
                                assert(f.contains(id));
                                assert(ids_under(m, ts[i as int]).contains(id));
                            }
                        }
                        assert(result_ids@ =~= g);
                    }
                },
                None => {
                    assert(filed_under_every(m, ts) =~= Set::<u64>::empty()) by {
                        assert forall|id: u64| !filed_under_every(m, ts).contains(id) by {
                            assert(!ids_under(m, ts[i as int]).contains(id));
                        }
                    }
                    assert(name_hits(self@, query@) =~= Set::<u64>::empty());
                    return Vec::new();
                },
            }
            if result_ids.is_empty() {
                assert(filed_under_every(m, ts) =~= Set::<u64>::empty()) by {
                    assert forall|id: u64| !filed_under_every(m, ts).contains(id) by {
                        if filed_under_every(m, ts).contains(id) {
                            assert forall|j: int| 0 <= j < i + 1 implies #[trigger] ids_under(
                                m,
                                ts[j],
                            ).contains(id) by {}
                            assert(filed_under_first(m, ts, i + 1).contains(id));
                            assert(result_ids@.contains(id));
                        }
                    }
                }
                assert(name_hits(self@, query@) =~= Set::<u64>::empty());
                return Vec::new();
            }
            i = i + 1;
        }
        assert(result_ids@ =~= filed_under_every(m, ts));
        let r = self.collect(&result_ids);
        proof {
            lemma_lists_restrict(r@, result_ids@, self@);
        }
        r
    }

    /// Combined search: each filter given (words of the name, category,
    /// brand) narrows the result; a name query that is blank once trimmed
    /// is no filter. With no filter, every product is listed.
    pub fn search(&self, name_query: Option<&str>, category: Option<&str>, brand: Option<&str>) -> (r: Vec<&Product>)
        requires
            self.wf(),
        ensures
            lists(r@, search_hits(self@, opt_view(name_query), opt_view(category), opt_view(brand)), self@),
    {
        let ghost ps = self@;
        let mut ids: Option<HashSet<u64>> = None;
        match name_query {
            Some(q) => {
                if !trim(q).is_empty() {
                    let found = self.search_by_name(q);
                    let r = ids_of(&found);
                    assert(r@ =~= name_hits(ps, q@)) by {
                        assert forall|id: u64| name_hits(ps, q@).contains(id) implies r@.contains(id) by {
                            let i = choose|i: int| 0 <= i < found@.len() && (#[trigger] found@[i]).id == id;
                        }
                    }
                    ids = Some(merge(ids, r));
                }
            },
            None => {},
        }
        let ghost by_text = narrow(
            None,
            match opt_view(name_query) {
                Some(q) => if trimmed(q).len() > 0 {
                    Some(name_hits(ps, q))
                } else {
                    None
                },
                None => None,
            },
        );
        assert(opt_ids_view(ids) == by_text);
        match category {
            Some(c) => {
                let key = normalize(c);
                let r = match self.by_category.get(key.as_str()) {
                    Some(set) => copy_ids(set),
                    None => HashSet::new(),
                };
                assert(r@ =~= category_hits(ps, c@)) by {
                    assert(ids_under(self.by_category@, key@) == with_category(ps, key@));
                }
                ids = Some(merge(ids, r));
            },
            None => {},
        }
        let ghost by_category = narrow(
            by_text,
            match opt_view(category) {
                Some(c) => Some(category_hits(ps, c)),
                None => None,
            },
        );
        assert(opt_ids_view(ids) == by_category);
        match brand {
            Some(b) => {
                let key = normalize(b);
                let r = match self.by_brand.get(key.as_str()) {
                    Some(set) => copy_ids(set),
                    None => HashSet::new(),
                };
                assert(r@ =~= brand_hits(ps, b@)) by {
                    assert(ids_under(self.by_brand@, key@) == with_brand(ps, key@));
                }
                ids = Some(merge(ids, r));
            },
            None => {},
        }
        assert(opt_ids_view(ids) == narrowed(ps, opt_view(name_query), opt_view(category), opt_view(brand)));
        proof {
            lemma_narrowed(ps, opt_view(name_query), opt_view(category), opt_view(brand));
        }
        match ids {
            None => self.all_products(),
            Some(set) => {
                let r = self.collect(&set);
                proof {
                    lemma_lists_restrict(r@, set@, self@);
                }
                r
            },
        }
    }

    /// Adds each product of `items`, in order.
    pub fn add_products(&mut self, items: Vec<Product>)
        requires
            old(self).wf(),
        ensures
            final(self).wf(),
            final(self)@ == add_all(old(self)@, items@),
    {
        let ghost ps = items@;
        let ghost start = self@;
        let n = items.len();
        let mut i: usize = 0;
        proof {
            assert(ps.take(0) =~= Seq::<Product>::empty());
        }
        for p in it: items
            invariant
                self.wf(),
                it.seq() == ps,
                ps.len() == n,
                i == it.index(),
                self@ == add_all(start, ps.take(i as int)),
        {
            self.add_product(p);
            proof {
                assert(ps.take(i + 1).drop_last() =~= ps.take(i as int));
            }
            i = i + 1;
        }
        proof {
            assert(ps.take(i as int) =~= ps);
        }
    }
}

} // verus!
