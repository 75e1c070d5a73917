//! Text normalisation shared by every index of the catalogue: trimming,
//! lower-casing and splitting a product name into searchable words.
use vstd::prelude::*;

verus! {

/// Whether `c` has the Unicode `White_Space` property: tab, line feed,
/// vertical tab, form feed, carriage return, space, next line, no-break
/// space, Ogham space mark, the spaces U+2000 to U+200A, line and paragraph
/// separators, narrow no-break space, medium mathematical space and
/// ideographic space.
pub open spec fn white_space(c: char) -> bool {
    let v = c as int;
    ||| 0x09 <= v <= 0x0d
    ||| v == 0x20
    ||| v == 0x85
    ||| v == 0xa0
    ||| v == 0x1680
    ||| 0x2000 <= v <= 0x200a
    ||| v == 0x2028
    ||| v == 0x2029
    ||| v == 0x202f
    ||| v == 0x205f
    ||| v == 0x3000
}

/// Whether `c` is in Latin-1 (U+0000 to U+00FF).
pub open spec fn is_latin1(c: char) -> bool {
    (c as int) <= 0xff
}

/// The Latin-1 characters that are Unicode `Alphabetic` or `Numeric`: the
/// ASCII digits and letters, the feminine and masculine ordinals, micro
/// sign, superscripts one to three, the vulgar fractions, and the letters
/// U+00C0 to U+00FF except the multiplication and division signs.
pub open spec fn latin1_alphanumeric(c: char) -> bool {
    let v = c as int;
    ||| 0x30 <= v <= 0x39
    ||| 0x41 <= v <= 0x5a
    ||| 0x61 <= v <= 0x7a
    ||| v == 0xaa
    ||| v == 0xb2
    ||| v == 0xb3
    ||| v == 0xb5
    ||| v == 0xb9
    ||| v == 0xba
    ||| 0xbc <= v <= 0xbe
    ||| 0xc0 <= v <= 0xd6
    ||| 0xd8 <= v <= 0xf6
    ||| 0xf8 <= v <= 0xff
}

/// What `char::is_alphanumeric` answers for a character beyond Latin-1 (the
/// Unicode `Alphabetic` or `Numeric` properties, fixed by the tables
/// compiled into std).
pub uninterp spec fn alphanumeric_beyond_latin1(c: char) -> bool;

/// Whether `c` is Unicode `Alphabetic` or `Numeric` (what
/// `char::is_alphanumeric` answers).
pub open spec fn alphanumeric(c: char) -> bool {
    if is_latin1(c) {
        latin1_alphanumeric(c)
    } else {
        alphanumeric_beyond_latin1(c)
    }
}

/// The Latin-1 upper-case letters: A to Z and U+00C0 to U+00DE except the
/// multiplication sign.
pub open spec fn latin1_upper(c: char) -> bool {
    let v = c as int;
    ||| 0x41 <= v <= 0x5a
    ||| 0xc0 <= v <= 0xd6
    ||| 0xd8 <= v <= 0xde
}

/// The lower-case form of a Latin-1 character: each upper-case letter
/// becomes the letter 0x20 above it; every other character stays.
pub open spec fn lower_char(c: char) -> char {
    if latin1_upper(c) {
        ((c as int) + 0x20) as char
    } else {
        c
    }
}

/// What the character at `i` of `s` becomes in `str::to_lowercase(s)` when
/// it is beyond Latin-1: its Unicode lower-case mapping, which for capital
/// sigma also depends on its neighbours in `s`.
pub uninterp spec fn lowercase_beyond_latin1(s: Seq<char>, i: int) -> Seq<char>;

/// What the character at `i` of `s` becomes when `s` is lower-cased.
pub open spec fn lowered_at(s: Seq<char>, i: int) -> Seq<char> {
    if is_latin1(s[i]) {
        seq![lower_char(s[i])]
    } else {
        lowercase_beyond_latin1(s, i)
    }
}

/// The first `n` characters of `s`, lower-cased one by one.
pub open spec fn lowercase_prefix(s: Seq<char>, n: nat) -> Seq<char>
    decreases n,
{
    if n == 0 {
        Seq::empty()
    } else {
        lowercase_prefix(s, (n - 1) as nat) + lowered_at(s, n - 1)
    }
}

/// What `str::to_lowercase` returns: each character replaced by its Unicode
/// lower-case mapping, in order.
pub open spec fn lowercase(s: Seq<char>) -> Seq<char> {
    lowercase_prefix(s, s.len())
}

/// `s` with each Latin-1 upper-case letter lower-cased.
pub open spec fn lowered(s: Seq<char>) -> Seq<char> {
    s.map_values(|c: char| lower_char(c))
}

/// Every character of `s` is in Latin-1.
pub open spec fn all_latin1(s: Seq<char>) -> bool {
    forall|i: int| 0 <= i < s.len() ==> is_latin1(#[trigger] s[i])
}

/// Whether `c` is white space, as `char::is_whitespace` decides it.
pub fn is_white_space(c: char) -> (r: bool)
    ensures
        r == white_space(c),
{
    let v = c as u32;
    (0x09 <= v && v <= 0x0d) || v == 0x20 || v == 0x85 || v == 0xa0 || v == 0x1680 || (0x2000
        <= v && v <= 0x200a) || v == 0x2028 || v == 0x2029 || v == 0x202f || v == 0x205f || v
        == 0x3000
}

/// Calls `char::is_alphanumeric`: whether `c` is Unicode `Alphabetic` or
/// `Numeric`. The contract states the Latin-1 table; beyond Latin-1 the
/// answer is the named `alphanumeric_beyond_latin1(c)`.
#[verifier::external_body]
fn char_is_alphanumeric(c: char) -> (r: bool)
    ensures
        r == alphanumeric(c),
        !is_latin1(c) ==> r == alphanumeric_beyond_latin1(c),
{
    c.is_alphanumeric()
}

/// Calls `str::to_lowercase`: each character is replaced by its Unicode
/// lower-case mapping, in order. The contract states the mapping of Latin-1
/// characters; what a character beyond Latin-1 becomes is the named
/// `lowercase_beyond_latin1(s, i)`, which may depend on the whole string
/// (final sigma).
#[verifier::external_body]
fn str_to_lowercase(s: &str) -> (r: String)
    ensures
        r@ == lowercase(s@),
        s@.len() == 1 && !is_latin1(s@[0]) ==> r@ == lowercase_beyond_latin1(s@, 0),
{
    s.to_lowercase()
}

/// Calls `String::push`, which appends one character at the end.
#[verifier::external_body]
pub(crate) fn string_push(s: &mut String, c: char)
    ensures
        final(s)@ == old(s)@.push(c),
{
    s.push(c)
}

/// `s` without its leading white space.
pub open spec fn trim_start(s: Seq<char>) -> Seq<char>
    decreases s.len(),
{
    if s.len() > 0 && white_space(s[0]) {
        trim_start(s.drop_first())
    } else {
        s
    }
}

/// `s` without its trailing white space.
pub open spec fn trim_end(s: Seq<char>) -> Seq<char>
    decreases s.len(),
{
    if s.len() > 0 && white_space(s.last()) {
        trim_end(s.drop_last())
    } else {
        s
    }
}

/// `s` without leading and trailing white space (what `str::trim` gives).
pub open spec fn trimmed(s: Seq<char>) -> Seq<char> {
    trim_end(trim_start(s))
}


/// The pieces of `s` between the characters that are not alphanumeric, in
/// order, empty pieces included (what `str::split` with that predicate gives).
pub open spec fn pieces(s: Seq<char>) -> Seq<Seq<char>>
    decreases s.len(),
{
    if s.len() == 0 {
        seq![Seq::<char>::empty()]
    } else {
        let p = pieces(s.drop_last());
        if alphanumeric(s.last()) {
            p.update(p.len() - 1, p.last().push(s.last()))
        } else {
            p.push(Seq::<char>::empty())
        }
    }
}

/// Which pieces are kept as words: the non-empty ones.
pub open spec fn is_word() -> spec_fn(Seq<char>) -> bool {
    |w: Seq<char>| w.len() > 0
}

/// Lower-casing, as a function on character sequences.
pub open spec fn lower() -> spec_fn(Seq<char>) -> Seq<char> {
    |w: Seq<char>| lowercase(w)
}

/// The words of `s`: its maximal runs of alphanumeric characters, in order.
pub open spec fn words(s: Seq<char>) -> Seq<Seq<char>> {
    pieces(s).filter(is_word())
}

/// The search tokens of `s`: its words, each lower-cased.
pub open spec fn tokens(s: Seq<char>) -> Seq<Seq<char>> {
    words(s).map_values(lower())
}

/// The words `ts` joined by single spaces.
pub open spec fn joined(ts: Seq<Seq<char>>) -> Seq<char>
    decreases ts.len(),
{
    if ts.len() == 0 {
        Seq::empty()
    } else if ts.len() == 1 {
        ts[0]
    } else {
        joined(ts.drop_last()) + seq![' '] + ts.last()
    }
}

/// The key under which a brand or a category is indexed and looked up: its
/// lower-cased words joined by single spaces, so that case, white space and
/// punctuation do not matter.
pub open spec fn normalized(s: Seq<char>) -> Seq<char> {
    joined(tokens(s))
}

/// The characters of a list of strings.
pub open spec fn strings_view(v: Seq<String>) -> Seq<Seq<char>> {
    v.map_values(|t: String| t@)
}

proof fn lemma_pieces_not_empty(s: Seq<char>)
    ensures
        pieces(s).len() >= 1,
    decreases s.len(),
{
    if s.len() > 0 {
        lemma_pieces_not_empty(s.drop_last());
    }
}

proof fn lemma_lowercase_prefix_latin1(s: Seq<char>, n: nat)
    requires
        n <= s.len(),
        all_latin1(s),
    ensures
        lowercase_prefix(s, n) == lowered(s.take(n as int)),
    decreases n,
{
    if n > 0 {
        lemma_lowercase_prefix_latin1(s, (n - 1) as nat);
        assert(is_latin1(s[n - 1]));
        assert(lowered(s.take(n as int)) =~= lowered(s.take(n - 1)) + seq![lower_char(s[n - 1])]);
    } else {
        assert(lowered(s.take(0)) =~= Seq::<char>::empty());
    }
}

/// Lower-casing a Latin-1 string lowers each of its letters.
pub proof fn lemma_lowercase_latin1(s: Seq<char>)
    requires
        all_latin1(s),
    ensures
        lowercase(s) == lowered(s),
{
    lemma_lowercase_prefix_latin1(s, s.len());
    assert(s.take(s.len() as int) =~= s);
}

/// Two Latin-1 characters with the same lower-case form are both
/// alphanumeric or both not.
pub proof fn lemma_case_pair_alphanumeric(x: char, y: char)
    requires
        is_latin1(x),
        is_latin1(y),
        lower_char(x) == lower_char(y),
    ensures
        alphanumeric(x) == alphanumeric(y),
{
    assert(latin1_upper(x) ==> (lower_char(x) as int) == (x as int) + 0x20);
    assert(latin1_upper(y) ==> (lower_char(y) as int) == (y as int) + 0x20);
}

/// A lower-cased Latin-1 character is no upper-case letter, and it is
/// alphanumeric exactly when the character was.
pub proof fn lemma_lower_char(x: char)
    requires
        is_latin1(x),
    ensures
        is_latin1(lower_char(x)),
        !latin1_upper(lower_char(x)),
        lower_char(lower_char(x)) == lower_char(x),
        alphanumeric(lower_char(x)) == alphanumeric(x),
{
    assert(latin1_upper(x) ==> (lower_char(x) as int) == (x as int) + 0x20);
}

/// Keeping the elements that pass `p` and mapping them by `f` gives the same
/// result on two sequences whose elements agree on `p` and on `f` place by
/// place.
pub proof fn lemma_filter_map_agree<A, B>(
    u: Seq<A>,
    v: Seq<A>,
    p: spec_fn(A) -> bool,
    f: spec_fn(A) -> B,
)
    requires
        u.len() == v.len(),
        forall|j: int| 0 <= j < u.len() ==> p(#[trigger] u[j]) == p(v[j]) && f(u[j]) == f(v[j]),
    ensures
        u.filter(p).map_values(f) == v.filter(p).map_values(f),
    decreases u.len(),
{
    reveal(Seq::filter);
    if u.len() > 0 {
        let u1 = u.drop_last();
        let v1 = v.drop_last();
        assert forall|j: int| 0 <= j < u1.len() implies p(#[trigger] u1[j]) == p(v1[j]) && f(u1[j])
            == f(v1[j]) by {
            assert(u1[j] == u[j] && v1[j] == v[j]);
        }
        lemma_filter_map_agree(u1, v1, p, f);
        assert(p(u.last()) == p(v.last()) && f(u.last()) == f(v.last()));
        if p(u.last()) {
            assert(u.filter(p).map_values(f) =~= u1.filter(p).map_values(f).push(f(u.last())));
            assert(v.filter(p).map_values(f) =~= v1.filter(p).map_values(f).push(f(v.last())));
        }
    } else {
        assert(u.filter(p).map_values(f) =~= v.filter(p).map_values(f));
    }
}

/// Splitting two Latin-1 strings that differ only in letter case gives
/// pieces that differ only in letter case, place by place.
pub proof fn lemma_pieces_case(a: Seq<char>, b: Seq<char>)
    requires
        all_latin1(a),
        all_latin1(b),
        lowered(a) == lowered(b),
    ensures
        pieces(a).len() == pieces(b).len(),
        forall|j: int|
            0 <= j < pieces(a).len() ==> lowered(#[trigger] pieces(a)[j]) == lowered(pieces(b)[j])
                && all_latin1(pieces(a)[j]) && all_latin1(pieces(b)[j]),
    decreases a.len(),
{
    assert(a.len() == lowered(a).len());
    assert(b.len() == lowered(b).len());
    if a.len() > 0 {
        let a1 = a.drop_last();
        let b1 = b.drop_last();
        assert(lowered(a1) =~= lowered(b1)) by {
            assert forall|i: int| 0 <= i < a1.len() implies lowered(a1)[i] == lowered(b1)[i] by {
                assert(a1[i] == a[i] && b1[i] == b[i]);
                assert(lowered(a)[i] == lower_char(a[i]));
                assert(lowered(b)[i] == lower_char(b[i]));
                assert(lowered(a)[i] == lowered(b)[i]);
            }
        }
        lemma_pieces_case(a1, b1);
        lemma_pieces_not_empty(a1);
        let pa = pieces(a1);
        let pb = pieces(b1);
        let c = a.last();
        let d = b.last();
        assert(lowered(a)[a.len() - 1] == lower_char(c));
        assert(lowered(b)[a.len() - 1] == lower_char(d));
        assert(lowered(a)[a.len() - 1] == lowered(b)[a.len() - 1]);
        assert(is_latin1(a[a.len() - 1]) && is_latin1(b[b.len() - 1]));
        assert(is_latin1(c) && is_latin1(d));
        lemma_case_pair_alphanumeric(c, d);
        if alphanumeric(c) {
            let k = pa.len() - 1;
            assert(lowered(pa[k].push(c)) =~= lowered(pa[k]).push(lower_char(c)));
            assert(lowered(pb[k].push(d)) =~= lowered(pb[k]).push(lower_char(d)));
            assert forall|j: int| 0 <= j < pieces(a).len() implies lowered(#[trigger] pieces(a)[j])
                == lowered(pieces(b)[j]) && all_latin1(pieces(a)[j]) && all_latin1(
                pieces(b)[j],
            ) by {
                if j < k {
                    assert(pieces(a)[j] == pa[j]);
                    assert(pieces(b)[j] == pb[j]);
                } else {
                    assert(pieces(a)[j] == pa[k].push(c));
                    assert(pieces(b)[j] == pb[k].push(d));
                    assert(lowered(pa[k]) == lowered(pb[k]));
                }
            }
        } else {
            assert forall|j: int| 0 <= j < pieces(a).len() implies lowered(#[trigger] pieces(a)[j])
                == lowered(pieces(b)[j]) && all_latin1(pieces(a)[j]) && all_latin1(
                pieces(b)[j],
            ) by {
                if j < pa.len() {
                    assert(pieces(a)[j] == pa[j]);
                    assert(pieces(b)[j] == pb[j]);
                } else {
                    assert(lowered(pieces(a)[j]) =~= lowered(pieces(b)[j]));
                }
            }
        }
    }
}

/// Lower-casing a Latin-1 word gives the same as lowering its letters.
proof fn lemma_lower_is_lowered(w: Seq<char>)
    requires
        all_latin1(w),
    ensures
        lower()(w) == lowered(w),
{
    lemma_lowercase_latin1(w);
}

/// Two Latin-1 strings that differ only in letter case have the same
/// search tokens.
pub proof fn lemma_tokens_case(a: Seq<char>, b: Seq<char>)
    requires
        all_latin1(a),
        all_latin1(b),
        lowered(a) == lowered(b),
    ensures
        tokens(a) == tokens(b),
{
    lemma_pieces_case(a, b);
    let pa = pieces(a);
    let pb = pieces(b);
    assert forall|j: int| 0 <= j < pa.len() implies is_word()(#[trigger] pa[j]) == is_word()(pb[j])
        && lower()(pa[j]) == lower()(pb[j]) by {
        lemma_lower_is_lowered(pa[j]);
        lemma_lower_is_lowered(pb[j]);
        assert(pa[j].len() == lowered(pa[j]).len());
        assert(pb[j].len() == lowered(pb[j]).len());
    }
    lemma_filter_map_agree(pa, pb, is_word(), lower());
}

/// One step of splitting, on pieces that end with `v`, touches only `v`.
proof fn lemma_step_append(u: Seq<Seq<char>>, v: Seq<Seq<char>>, c: char)
    requires
        v.len() >= 1,
    ensures
        (if alphanumeric(c) {
            (u + v).update((u + v).len() - 1, (u + v).last().push(c))
        } else {
            (u + v).push(Seq::<char>::empty())
        }) == u + (if alphanumeric(c) {
            v.update(v.len() - 1, v.last().push(c))
        } else {
            v.push(Seq::<char>::empty())
        }),
{
    if alphanumeric(c) {
        assert((u + v).update((u + v).len() - 1, (u + v).last().push(c)) =~= u + v.update(
            v.len() - 1,
            v.last().push(c),
        ));
    } else {
        assert((u + v).push(Seq::<char>::empty()) =~= u + v.push(Seq::<char>::empty()));
    }
}

/// After a string whose last piece is empty, the pieces of what follows
/// start a fresh piece.
proof fn lemma_pieces_after_break(x: Seq<char>, b: Seq<char>)
    requires
        pieces(x).len() >= 1,
        pieces(x).last() == Seq::<char>::empty(),
    ensures
        pieces(x + b) == pieces(x).drop_last() + pieces(b),
    decreases b.len(),
{
    if b.len() == 0 {
        assert(x + b =~= x);
        assert(pieces(x).drop_last() + pieces(b) =~= pieces(x));
    } else {
        let b1 = b.drop_last();
        lemma_pieces_after_break(x, b1);
        lemma_pieces_not_empty(b1);
        assert((x + b).drop_last() =~= x + b1);
        assert((x + b).last() == b.last());
        lemma_step_append(pieces(x).drop_last(), pieces(b1), b.last());
    }
}

/// A character that is not alphanumeric separates words: the tokens of
/// `a`, the separator and `b` are the tokens of `a` followed by those of `b`.
pub proof fn lemma_tokens_split(a: Seq<char>, sep: char, b: Seq<char>)
    requires
        !alphanumeric(sep),
    ensures
        tokens(a + seq![sep] + b) == tokens(a) + tokens(b),
{
    let x = a + seq![sep];
    assert(x.drop_last() =~= a);
    assert(x.last() == sep);
    lemma_pieces_not_empty(a);
    lemma_pieces_after_break(x, b);
    assert(pieces(x).drop_last() =~= pieces(a));
    let pa = pieces(a);
    let pb = pieces(b);
    assert(pieces(x + b) == pa + pb);
    Seq::filter_distributes_over_add(pa, pb, is_word());
    assert((pa.filter(is_word()) + pb.filter(is_word())).map_values(lower()) =~= pa.filter(
        is_word(),
    ).map_values(lower()) + pb.filter(is_word()).map_values(lower()));
}

/// Every token of a Latin-1 string is a non-empty run of alphanumeric,
/// non-upper-case Latin-1 characters.
pub proof fn lemma_tokens_shape(s: Seq<char>)
    requires
        all_latin1(s),
    ensures
        forall|j: int, k: int|
            0 <= j < tokens(s).len() && 0 <= k < tokens(s)[j].len() ==> {
                &&& is_latin1(#[trigger] tokens(s)[j][k])
                &&& alphanumeric(tokens(s)[j][k])
                &&& !latin1_upper(tokens(s)[j][k])
            },
        forall|j: int| 0 <= j < tokens(s).len() ==> #[trigger] tokens(s)[j].len() > 0,
{
    lemma_pieces_shape(s);
    let p = pieces(s);
    let w = p.filter(is_word());
    assert forall|j: int| 0 <= j < w.len() implies {
        &&& #[trigger] w[j].len() > 0
        &&& forall|k: int| 0 <= k < w[j].len() ==> is_latin1(#[trigger] w[j][k]) && alphanumeric(w[j][k])
    } by {
        p.lemma_filter_pred(is_word(), j);
        assert(w.contains(w[j]));
        p.lemma_filter_contains_rev(is_word(), w[j]);
        let i = choose|i: int| 0 <= i < p.len() && p[i] == w[j];
        assert forall|k: int| 0 <= k < w[j].len() implies is_latin1(#[trigger] w[j][k]) && alphanumeric(w[j][k]) by {
            assert(w[j][k] == p[i][k]);
        }
    }
    assert forall|j: int, k: int| 0 <= j < tokens(s).len() && 0 <= k < tokens(s)[j].len() implies {
        &&& is_latin1(#[trigger] tokens(s)[j][k])
        &&& alphanumeric(tokens(s)[j][k])
        &&& !latin1_upper(tokens(s)[j][k])
    } by {
        assert(w[j].len() > 0);
        lemma_lowercase_latin1(w[j]);
        assert(tokens(s)[j] == lowered(w[j]));
        assert(is_latin1(w[j][k]) && alphanumeric(w[j][k]));
        lemma_lower_char(w[j][k]);
    }
    assert forall|j: int| 0 <= j < tokens(s).len() implies #[trigger] tokens(s)[j].len() > 0 by {
        lemma_lowercase_latin1(w[j]);
        assert(tokens(s)[j] == lowered(w[j]));
    }
}

/// Every piece of a string holds only alphanumeric characters of the
/// string; of a Latin-1 string, only Latin-1 ones.
proof fn lemma_pieces_shape(s: Seq<char>)
    requires
        all_latin1(s),
    ensures
        forall|j: int, k: int|
            0 <= j < pieces(s).len() && 0 <= k < pieces(s)[j].len() ==> is_latin1(
                #[trigger] pieces(s)[j][k],
            ) && alphanumeric(pieces(s)[j][k]),
    decreases s.len(),
{
    if s.len() > 0 {
        let s1 = s.drop_last();
        assert(all_latin1(s1)) by {
            assert forall|i: int| 0 <= i < s1.len() implies is_latin1(#[trigger] s1[i]) by {
                assert(s1[i] == s[i]);
            }
        }
        lemma_pieces_shape(s1);
        lemma_pieces_not_empty(s1);
        let p = pieces(s1);
        let c = s.last();
        assert(is_latin1(c));
        assert forall|j: int, k: int|
            0 <= j < pieces(s).len() && 0 <= k < pieces(s)[j].len() implies is_latin1(
            #[trigger] pieces(s)[j][k],
        ) && alphanumeric(pieces(s)[j][k]) by {
            if alphanumeric(c) {
                if j < p.len() - 1 {
                    assert(pieces(s)[j] == p[j]);
                } else {
                    assert(pieces(s)[j] == p[j].push(c));
                    if k < p[j].len() {
                        assert(pieces(s)[j][k] == p[j][k]);
                    }
                }
            } else {
                if j < p.len() {
                    assert(pieces(s)[j] == p[j]);
                }
            }
        }
    }
}

proof fn lemma_trim_start(s: Seq<char>, k: int)
    requires
        0 <= k <= s.len(),
        forall|j: int| 0 <= j < k ==> white_space(#[trigger] s[j]),
        k == s.len() || !white_space(s[k]),
    ensures
        trim_start(s) == s.skip(k),
    decreases k,
{
    if k > 0 {
        assert(white_space(s[0]));
        let t = s.drop_first();
        assert forall|j: int| 0 <= j < k - 1 implies white_space(#[trigger] t[j]) by {
            assert(t[j] == s[j + 1]);
        }
        if k - 1 < t.len() {
            assert(t[k - 1] == s[k]);
        }
        lemma_trim_start(t, k - 1);
        assert(t.skip(k - 1) =~= s.skip(k));
    } else {
        assert(s.skip(0) =~= s);
    }
}

proof fn lemma_trim_end(s: Seq<char>, k: int)
    requires
        0 <= k <= s.len(),
        forall|j: int| k <= j < s.len() ==> white_space(#[trigger] s[j]),
        k == 0 || !white_space(s[k - 1]),
    ensures
        trim_end(s) == s.take(k),
    decreases s.len() - k,
{
    if k < s.len() {
        assert(white_space(s.last()));
        let t = s.drop_last();
        assert forall|j: int| k <= j < t.len() implies white_space(#[trigger] t[j]) by {
            assert(t[j] == s[j]);
        }
        if k > 0 {
            assert(t[k - 1] == s[k - 1]);
        }
        lemma_trim_end(t, k);
        assert(t.take(k) =~= s.take(k));
    } else {
        assert(s.take(k) =~= s);
    }
}

/// `s` without leading and trailing white space.
pub fn trim(s: &str) -> (r: &str)
    ensures
        r@ == trimmed(s@),
{
    let len = s.unicode_len();
    let mut start: usize = 0;
    let mut end: usize = 0;
    let mut seen = false;
    let mut i: usize = 0;
    for c in it: s.chars()
        invariant
            len == s@.len(),
            it.seq() == s@,
            i == it.index(),
            i <= len,
            !seen ==> start == 0 && end == 0,
            !seen ==> forall|k: int| 0 <= k < i ==> white_space(#[trigger] s@[k]),
            seen ==> {
                &&& start < end <= i
                &&& !white_space(s@[start as int])
                &&& !white_space(s@[end - 1])
                &&& forall|k: int| 0 <= k < start ==> white_space(#[trigger] s@[k])
                &&& forall|k: int| end <= k < i ==> white_space(#[trigger] s@[k])
            },
    {
        assert(c == s@[i as int]);
        if !is_white_space(c) {
            if !seen {
                start = i;
                seen = true;
            }
            end = i + 1;
        }
        i = i + 1;
    }
    proof {
        if seen {
            lemma_trim_start(s@, start as int);
            let t = s@.skip(start as int);
            assert forall|j: int| end - start <= j < t.len() implies white_space(#[trigger] t[j]) by {
                assert(t[j] == s@[j + start]);
            }
            assert(t[end - start - 1] == s@[end - 1]);
            lemma_trim_end(t, end - start);
            assert(t.take(end - start) =~= s@.subrange(start as int, end as int));
        } else {
            lemma_trim_start(s@, s@.len() as int);
            lemma_trim_end(s@.skip(s@.len() as int), 0);
            assert(s@.subrange(0, 0) =~= s@.skip(s@.len() as int).take(0));
        }
    }
    s.substring_char(start, end)
}

/// The key under which a brand or a category is indexed: the lower-cased
/// words of `s` joined by single spaces.
pub fn normalize(s: &str) -> (r: String)
    ensures
        r@ == normalized(s@),
{
    let words = tokenize(s);
    let ghost ts = strings_view(words@);
    let n = words.len();
    let mut r = String::new();
    let mut i: usize = 0;
    proof {
        assert(ts.take(0) =~= Seq::<Seq<char>>::empty());
    }
    while i < n
        invariant
            i <= n == words.len(),
            ts == strings_view(words@),
            r@ == joined(ts.take(i as int)),
        decreases n - i,
    {
        proof {
            assert(ts.take(i + 1).drop_last() =~= ts.take(i as int));
            assert(words[i as int]@ == ts[i as int]);
        }
        if i > 0 {
            string_push(&mut r, ' ');
        }
        r.append(words[i].as_str());
        proof {
            if i == 0 {
                assert(r@ =~= joined(ts.take(1)));
            } else {
                assert(r@ =~= joined(ts.take(i + 1)));
            }
        }
        i = i + 1;
    }
    proof {
        assert(ts.take(n as int) =~= ts);
    }
    r
}

/// Whether `k` is among the first `i + 1` elements of `s` exactly when it is
/// among the first `i` or is the element at `i`.
pub proof fn lemma_take_one_more<A>(s: Seq<A>, i: int)
    requires
        0 <= i < s.len(),
    ensures
        forall|k: A| #[trigger] s.take(i + 1).contains(k) == (s.take(i).contains(k) || k == s[i]),
{
    let t1 = s.take(i);
    let t2 = s.take(i + 1);
    assert forall|k: A| #[trigger] t2.contains(k) == (t1.contains(k) || k == s[i]) by {
        if t2.contains(k) {
            let j = choose|j: int| 0 <= j < t2.len() && #[trigger] t2[j] == k;
            if j < i {
                assert(t1[j] == k);
            }
        }
        if t1.contains(k) {
            let j = choose|j: int| 0 <= j < t1.len() && #[trigger] t1[j] == k;
            assert(t2[j] == k);
        }
        if k == s[i] {
            assert(t2[i] == k);
        }
    }
}

/// Splits `s` into lower-cased words: the runs of alphanumeric characters,
/// in order; every other character separates words.
pub fn tokenize(s: &str) -> (r: Vec<String>)
    ensures
        strings_view(r@) == tokens(s@),
{
    let len = s.unicode_len();
    let mut done: Vec<String> = Vec::new();
    let mut cur = String::new();
    let mut i: usize = 0;
    let ghost keep = is_word();
    let ghost low = lower();
    proof {
        assert(s@.take(0) =~= Seq::<char>::empty());
        assert(pieces(s@.take(0)).drop_last() =~= Seq::<Seq<char>>::empty());
        reveal_with_fuel(Seq::filter, 1);
        assert(strings_view(done@) =~= Seq::<Seq<char>>::empty());
    }
    for c in it: s.chars()
        invariant
            len == s@.len(),
            it.seq() == s@,
            i == it.index(),
            i <= len,
            cur@ == pieces(s@.take(i as int)).last(),
            pieces(s@.take(i as int)).len() >= 1,
            strings_view(done@) == pieces(s@.take(i as int)).drop_last().filter(keep).map_values(
                low,
            ),
            keep == is_word(),
            low == lower(),
    {
        let ghost p = pieces(s@.take(i as int));
        let ghost t = s@.take(i + 1);
        proof {
            assert(t.drop_last() =~= s@.take(i as int));
            assert(t.last() == c);
            lemma_pieces_not_empty(t);
        }
        if char_is_alphanumeric(c) {
            string_push(&mut cur, c);
            proof {
                assert(pieces(t).drop_last() =~= p.drop_last());
            }
        } else {
            if !cur.as_str().is_empty() {
                let w = str_to_lowercase(cur.as_str());
                let ghost before = strings_view(done@);
                done.push(w);
                proof {
                    assert(pieces(t).drop_last() =~= p);
                    assert(p =~= p.drop_last().push(p.last()));
                    p.drop_last().lemma_filter_push(p.last(), keep);
                    assert(strings_view(done@) =~= before.push(w@));
                }
            } else {
                proof {
                    assert(pieces(t).drop_last() =~= p);
                    assert(p =~= p.drop_last().push(p.last()));
                    p.drop_last().lemma_filter_push(p.last(), keep);
                }
            }
            cur = String::new();
        }
        i = i + 1;
    }
    let ghost p = pieces(s@.take(i as int));
    proof {
        assert(s@.take(i as int) =~= s@);
        assert(p =~= p.drop_last().push(p.last()));
        p.drop_last().lemma_filter_push(p.last(), keep);
    }
    if !cur.as_str().is_empty() {
        let w = str_to_lowercase(cur.as_str());
        let ghost before = strings_view(done@);
        done.push(w);
        proof {
            assert(strings_view(done@) =~= before.push(w@));
        }
    }
    done
}

} // verus!
