//! Applications that can open a file, and the ordered, duplicate-free list of
//! them that `fed --options` prints.
use vstd::prelude::*;

use crate::text::{chars_of, opt_text, text_or_empty};

verus! {

/// An application that can open a file: the name to show, and where the
/// platform has them, an identifier and the application's path.
#[derive(Debug, Clone, PartialEq, Eq)]
pub struct OpenOption {
    pub name: String,
    pub id: Option<String>,
    pub path: Option<String>,
}

/// The order key of an option: its name, identifier and path, each lower-cased.
pub type KeyView = (Seq<char>, Seq<char>, Seq<char>);

/// The mathematical value of an option: its name, identifier and path.
pub type OptionView = (Seq<char>, Option<Seq<char>>, Option<Seq<char>>);

pub open spec fn option_view(o: OpenOption) -> OptionView {
    (o.name@, opt_text(o.id), opt_text(o.path))
}

/// An option with a non-empty name; the others are never listed.
pub open spec fn named(o: OpenOption) -> bool {
    o.name@.len() > 0
}

/// What `str::to_lowercase` returns for a text: its Unicode lower-case
/// mapping, by the Unicode tables of the standard library built with.
pub uninterp spec fn lowercase(s: Seq<char>) -> Seq<char>;

/// The key by which options are ordered and told apart.
pub open spec fn option_key(o: OpenOption) -> KeyView {
    (lowercase(o.name@), lowercase(text_or_empty(o.id)), lowercase(text_or_empty(o.path)))
}

/// Lexicographic order of texts by character code, which is the order of
/// `String` (UTF-8 byte order equals code point order).
pub open spec fn chars_lt(a: Seq<char>, b: Seq<char>) -> bool
    decreases a.len(),
{
    if a.len() == 0 {
        b.len() > 0
    } else if b.len() == 0 {
        false
    } else if a[0] != b[0] {
        (a[0] as int) < (b[0] as int)
    } else {
        chars_lt(a.drop_first(), b.drop_first())
    }
}

/// Lexicographic order of keys, as tuples of strings are ordered.
pub open spec fn key_lt(a: KeyView, b: KeyView) -> bool {
    ||| chars_lt(a.0, b.0)
    ||| a.0 == b.0 && chars_lt(a.1, b.1)
    ||| a.0 == b.0 && a.1 == b.1 && chars_lt(a.2, b.2)
}

/// Index `i` holds a named option whose key no earlier named option has.
pub open spec fn first_of_key(s: Seq<OpenOption>, k: Seq<KeyView>, i: int) -> bool {
    &&& 0 <= i < s.len()
    &&& named(s[i])
    &&& forall|h: int| 0 <= h < i && named(s[h]) ==> k[h] != k[i]
}

/// `ix` lists, by strictly increasing key, exactly the indices of `s` that
/// hold the first named option of each key.
pub open spec fn first_indices_by_key(s: Seq<OpenOption>, k: Seq<KeyView>, ix: Seq<int>) -> bool {
    &&& forall|j: int| 0 <= j < ix.len() ==> first_of_key(s, k, #[trigger] ix[j])
    &&& forall|j1: int, j2: int|
        0 <= j1 < j2 < ix.len() ==> key_lt(k[#[trigger] ix[j1]], k[#[trigger] ix[j2]])
    &&& forall|i: int| first_of_key(s, k, i) ==> #[trigger] ix.contains(i)
}

/// `r` is what listing `s` by the keys `k` gives: for each key that a named
/// option has, the first named option with that key, in increasing key order.
pub open spec fn sorted_unique(s: Seq<OpenOption>, k: Seq<KeyView>, r: Seq<OpenOption>) -> bool {
    exists|ix: Seq<int>|
        {
            &&& ix.len() == r.len()
            &&& first_indices_by_key(s, k, ix)
            &&& forall|j: int| 0 <= j < r.len() ==> #[trigger] r[j] == s[ix[j]]
        }
}

/// The keys of the options `s`.
pub open spec fn keys_of(s: Seq<OpenOption>) -> Seq<KeyView> {
    s.map_values(|o: OpenOption| option_key(o))
}

pub proof fn lemma_chars_lt_irreflexive(a: Seq<char>)
    ensures
        !chars_lt(a, a),
    decreases a.len(),
{
    if a.len() > 0 {
        lemma_chars_lt_irreflexive(a.drop_first());
    }
}

pub proof fn lemma_chars_lt_asymmetric(a: Seq<char>, b: Seq<char>)
    ensures
        chars_lt(a, b) ==> !chars_lt(b, a),
    decreases a.len(),
{
    if a.len() > 0 && b.len() > 0 && a[0] == b[0] {
        lemma_chars_lt_asymmetric(a.drop_first(), b.drop_first());
    }
}

pub proof fn lemma_chars_lt_total(a: Seq<char>, b: Seq<char>)
    ensures
        a != b ==> chars_lt(a, b) || chars_lt(b, a),
    decreases a.len(),
{
    if a.len() > 0 && b.len() > 0 && a[0] == b[0] {
        lemma_chars_lt_total(a.drop_first(), b.drop_first());
        if a.drop_first() == b.drop_first() {
            assert(a =~= seq![a[0]] + a.drop_first());
            assert(b =~= seq![b[0]] + b.drop_first());
        }
    } else if a.len() == 0 && b.len() == 0 {
        assert(a =~= b);
    } else if a.len() > 0 && b.len() > 0 {
        assert((a[0] as int) != (b[0] as int));
    }
}

pub proof fn lemma_chars_lt_transitive(a: Seq<char>, b: Seq<char>, c: Seq<char>)
    ensures
        chars_lt(a, b) && chars_lt(b, c) ==> chars_lt(a, c),
    decreases a.len(),
{
    if a.len() > 0 && b.len() > 0 && c.len() > 0 && a[0] == b[0] && b[0] == c[0] {
        lemma_chars_lt_transitive(a.drop_first(), b.drop_first(), c.drop_first());
    }
}

/// `key_lt` is a strict total order.
pub proof fn lemma_key_lt_order(a: KeyView, b: KeyView, c: KeyView)
    ensures
        !key_lt(a, a),
        key_lt(a, b) ==> !key_lt(b, a),
        a != b ==> key_lt(a, b) || key_lt(b, a),
        key_lt(a, b) && key_lt(b, c) ==> key_lt(a, c),
{
    lemma_chars_lt_irreflexive(a.0);
    lemma_chars_lt_irreflexive(a.1);
    lemma_chars_lt_irreflexive(a.2);
    lemma_chars_lt_asymmetric(a.0, b.0);
    lemma_chars_lt_asymmetric(a.1, b.1);
    lemma_chars_lt_asymmetric(a.2, b.2);
    lemma_chars_lt_total(a.0, b.0);
    lemma_chars_lt_total(a.1, b.1);
    lemma_chars_lt_total(a.2, b.2);
    lemma_chars_lt_transitive(a.0, b.0, c.0);
    lemma_chars_lt_transitive(a.1, b.1, c.1);
    lemma_chars_lt_transitive(a.2, b.2, c.2);
}

/// Lower-cases `s` by `str::to_lowercase`. The contract claims only that the
/// result is the value named `lowercase` of the text.
#[verifier::external_body]
fn to_lowercase(s: &str) -> (r: String)
    ensures
        r@ == lowercase(s@),
{
    s.to_lowercase()
}

/// An order key held as texts.
pub struct OptionKey {
    pub name: String,
    pub id: String,
    pub path: String,
}

impl View for OptionKey {
    type V = KeyView;

    open spec fn view(&self) -> KeyView {
        (self.name@, self.id@, self.path@)
    }
}

/// An order key held as characters, for comparing.
struct CharKey {
    name: Vec<char>,
    id: Vec<char>,
    path: Vec<char>,
}

impl View for CharKey {
    type V = KeyView;

    closed spec fn view(&self) -> KeyView {
        (self.name@, self.id@, self.path@)
    }
}

enum Order {
    Less,
    Same,
    Greater,
}

fn compare_chars(a: &Vec<char>, b: &Vec<char>) -> (r: Order)
    ensures
        r is Less <==> chars_lt(a@, b@),
        r is Same <==> a@ == b@,
        r is Greater <==> chars_lt(b@, a@),
{
    proof {
        lemma_chars_lt_total(a@, b@);
        lemma_chars_lt_asymmetric(a@, b@);
        lemma_chars_lt_irreflexive(a@);
    }
    let mut i: usize = 0;
    assert(a@.skip(0) == a@ && b@.skip(0) == b@);
    while i < a.len() && i < b.len() && a[i] == b[i]
        invariant
            i <= a@.len(),
            i <= b@.len(),
            chars_lt(a@, b@) == chars_lt(a@.skip(i as int), b@.skip(i as int)),
            chars_lt(b@, a@) == chars_lt(b@.skip(i as int), a@.skip(i as int)),
            (a@ == b@) == (a@.skip(i as int) == b@.skip(i as int)),
        decreases a.len() - i,
    {
        let ghost sa = a@.skip(i as int);
        let ghost sb = b@.skip(i as int);
        assert(sa.drop_first() == a@.skip(i + 1));
        assert(sb.drop_first() == b@.skip(i + 1));
        assert(sa =~= seq![sa[0]] + sa.drop_first());
        assert(sb =~= seq![sb[0]] + sb.drop_first());
        i = i + 1;
    }
    let ghost sa = a@.skip(i as int);
    let ghost sb = b@.skip(i as int);
    if i == a.len() && i == b.len() {
        assert(sa =~= sb);
        Order::Same
    } else if i == a.len() {
        assert(sa.len() == 0 && sb.len() > 0);
        Order::Less
    } else if i == b.len() {
        assert(sb.len() == 0 && sa.len() > 0);
        Order::Greater
    } else if a[i] < b[i] {
        assert(sa[0] == a@[i as int] && sb[0] == b@[i as int]);
        Order::Less
    } else {
        assert(sa[0] == a@[i as int] && sb[0] == b@[i as int]);
        Order::Greater
    }
}

fn compare_keys(a: &CharKey, b: &CharKey) -> (r: Order)
    ensures
        r is Less <==> key_lt(a@, b@),
        r is Same <==> a@ == b@,
        r is Greater <==> key_lt(b@, a@),
{
    proof {
        lemma_key_lt_order(a@, b@, a@);
    }
    match compare_chars(&a.name, &b.name) {
        Order::Less => Order::Less,
        Order::Greater => Order::Greater,
        Order::Same => match compare_chars(&a.id, &b.id) {
            Order::Less => Order::Less,
            Order::Greater => Order::Greater,
            Order::Same => compare_chars(&a.path, &b.path),
        },
    }
}

/// After the first `i` options of `s`: `ix` lists, by strictly increasing
/// key, the indices below `i` that hold the first named option of their key,
/// and every named option below `i` has its key among them.
spec fn scan_inv(s: Seq<OpenOption>, k: Seq<KeyView>, ix: Seq<int>, i: int) -> bool {
    &&& 0 <= i <= s.len() == k.len()
    &&& forall|j: int| 0 <= j < ix.len() ==> 0 <= #[trigger] ix[j] < i && first_of_key(s, k, ix[j])
    &&& forall|j1: int, j2: int|
        0 <= j1 < j2 < ix.len() ==> key_lt(k[#[trigger] ix[j1]], k[#[trigger] ix[j2]])
    &&& forall|h: int| 0 <= h < i && first_of_key(s, k, h) ==> #[trigger] ix.contains(h)
    &&& forall|h: int| 0 <= h < i && named(#[trigger] s[h]) ==> key_listed(k, ix, k[h])
}

/// Some index that `ix` lists has the key `key`.
spec fn key_listed(k: Seq<KeyView>, ix: Seq<int>, key: KeyView) -> bool {
    exists|j: int| 0 <= j < ix.len() && k[ix[j]] == key
}

proof fn lemma_scan_unnamed(s: Seq<OpenOption>, k: Seq<KeyView>, ix: Seq<int>, i: int)
    requires
        scan_inv(s, k, ix, i),
        i < s.len(),
        !named(s[i]),
    ensures
        scan_inv(s, k, ix, i + 1),
{
    assert(!first_of_key(s, k, i));
}

proof fn lemma_scan_repeated(s: Seq<OpenOption>, k: Seq<KeyView>, ix: Seq<int>, i: int, p: int)
    requires
        scan_inv(s, k, ix, i),
        i < s.len(),
        0 <= p < ix.len(),
        k[ix[p]] == k[i],
    ensures
        scan_inv(s, k, ix, i + 1),
{
    assert(!first_of_key(s, k, i)) by {
        assert(ix[p] < i && named(s[ix[p]]));
    }
    assert(key_listed(k, ix, k[i]));
}

proof fn lemma_scan_insert(s: Seq<OpenOption>, k: Seq<KeyView>, ix: Seq<int>, i: int, p: int)
    requires
        scan_inv(s, k, ix, i),
        i < s.len(),
        named(s[i]),
        0 <= p <= ix.len(),
        forall|j: int| 0 <= j < p ==> key_lt(k[#[trigger] ix[j]], k[i]),
        p < ix.len() ==> key_lt(k[i], k[ix[p]]),
    ensures
        first_of_key(s, k, i),
        scan_inv(s, k, ix.insert(p, i), i + 1),
{
    assert forall|j: int| p <= j < ix.len() implies key_lt(k[i], k[#[trigger] ix[j]]) by {
        if j > p {
            lemma_key_lt_order(k[i], k[ix[p]], k[ix[j]]);
        }
    }
    assert(first_of_key(s, k, i)) by {
        assert forall|h: int| 0 <= h < i && named(s[h]) implies k[h] != k[i] by {
            if k[h] == k[i] {
                assert(key_listed(k, ix, k[h]));
                let j = choose|j: int| 0 <= j < ix.len() && k[ix[j]] == k[h];
                lemma_key_lt_order(k[i], k[i], k[i]);
            }
        }
    }
    let nx = ix.insert(p, i);
    assert forall|j: int| 0 <= j < nx.len() implies #[trigger] nx[j] == (if j < p {
        ix[j]
    } else if j == p {
        i
    } else {
        ix[j - 1]
    }) by {}
    assert forall|j1: int, j2: int| 0 <= j1 < j2 < nx.len() implies key_lt(
        k[#[trigger] nx[j1]],
        k[#[trigger] nx[j2]],
    ) by {
        if j1 < p && j2 > p {
            lemma_key_lt_order(k[ix[j1]], k[i], k[ix[j2 - 1]]);
        }
    }
    assert forall|h: int| 0 <= h < i + 1 && first_of_key(s, k, h) implies #[trigger] nx.contains(h) by {
        if h == i {
            assert(nx[p] == h);
        } else {
            let j = choose|j: int| 0 <= j < ix.len() && ix[j] == h;
            if j < p {
                assert(nx[j] == h);
            } else {
                assert(nx[j + 1] == h);
            }
        }
    }
    assert forall|h: int| 0 <= h < i + 1 && named(#[trigger] s[h]) implies key_listed(k, nx, k[h]) by {
        if h == i {
            assert(nx[p] == h);
        } else {
            assert(key_listed(k, ix, k[h]));
            let j = choose|j: int| 0 <= j < ix.len() && k[ix[j]] == k[h];
            if j < p {
                assert(nx[j] == ix[j]);
            } else {
                assert(nx[j + 1] == ix[j]);
            }
        }
    }
}

/// Lists `options` ordered by the keys `keys` (one per option, in the same
/// order), keeping for each key only the first named option that has it and
/// leaving out the options with an empty name.

pub fn sorted_unique_by_key(options: Vec<OpenOption>, keys: Vec<OptionKey>) -> (r: Vec<OpenOption>)
    requires
        keys@.len() == options@.len(),
    ensures
        sorted_unique(options@, keys@.map_values(|x: OptionKey| x@), r@),
{
    let ghost s = options@;
    let ghost k = keys@.map_values(|x: OptionKey| x@);
    let n = keys.len();
    let mut rest = options;
    let mut r: Vec<OpenOption> = Vec::new();
    let mut rk: Vec<CharKey> = Vec::new();
    let ghost mut ix: Seq<int> = Seq::empty();
    assert(s.skip(0) == s);
    for i in 0..n
        invariant
            n == s.len() == k.len() == keys@.len(),
            k == keys@.map_values(|x: OptionKey| x@),
            rest@ == s.skip(i as int),
            scan_inv(s, k, ix, i as int),
            r@.len() == rk@.len() == ix.len(),
            forall|j: int| 0 <= j < ix.len() ==> #[trigger] r@[j] == s[ix[j]],
            forall|j: int| 0 <= j < ix.len() ==> (#[trigger] rk@[j])@ == k[ix[j]],
    {
        let o = rest.remove(0);
        assert(o == s[i as int]);
        assert(rest@ == s.skip(i + 1));
        if !o.name.as_str().is_empty() {
            let key = CharKey {
                name: chars_of(keys[i].name.as_str()),
                id: chars_of(keys[i].id.as_str()),
                path: chars_of(keys[i].path.as_str()),
            };
            assert(key@ == k[i as int]);
            let mut p: usize = 0;
            let mut repeated = false;
            loop
                invariant_except_break
                    !repeated,
                    p <= rk@.len(),
                    forall|j: int| 0 <= j < p ==> key_lt((#[trigger] rk@[j])@, key@),
                ensures
                    p <= rk@.len(),
                    forall|j: int| 0 <= j < p ==> key_lt((#[trigger] rk@[j])@, key@),
                    repeated ==> p < rk@.len() && rk@[p as int]@ == key@,
                    !repeated && p < rk@.len() ==> key_lt(key@, rk@[p as int]@),
                decreases rk.len() - p,
            {
                if p == rk.len() {
                    break;
                }
                match compare_keys(&rk[p], &key) {
                    Order::Less => {
                        p = p + 1;
                    },
                    Order::Same => {
                        repeated = true;
                        break;
                    },
                    Order::Greater => {
                        break;
                    },
                }
            }
            
            if repeated {
                proof {
                    assert(rk@[p as int]@ == k[ix[p as int]]);
                    lemma_scan_repeated(s, k, ix, i as int, p as int);
                }
            } else {
                proof {
                    if p < rk.len() {
                        assert(rk@[p as int]@ == k[ix[p as int]]);
                    }
                    assert forall|j: int| 0 <= j < p implies key_lt(k[#[trigger] ix[j]], k[i as int]) by {
                        assert(rk@[j]@ == k[ix[j]]);
                    }
                    lemma_scan_insert(s, k, ix, i as int, p as int);
                }
                let ghost old_r = r@;
                let ghost old_rk = rk@;
                let ghost old_ix = ix;
                r.insert(p, o);
                rk.insert(p, key);
                proof {
                    ix = ix.insert(p as int, i as int);
                    assert forall|j: int| 0 <= j < ix.len() implies #[trigger] r@[j] == s[ix[j]]
                        && rk@[j]@ == k[ix[j]] by {
                        assert(old_rk.len() == old_ix.len());
                        if j == p {
                            assert(r@[j] == o && rk@[j] == key && ix[j] == i);
                        } else if j < p {
                            assert(old_r[j] == s[old_ix[j]]);
                            assert(r@[j] == old_r[j] && rk@[j] == old_rk[j] && ix[j] == old_ix[j]);
                        } else if j > p {
                            assert(old_r[j - 1] == s[old_ix[j - 1]]);
                            assert(r@[j] == old_r[j - 1] && rk@[j] == old_rk[j - 1] && ix[j]
                                == old_ix[j - 1]);
                        }
                    }
                }
                
            }
        } else {
            proof {
                lemma_scan_unnamed(s, k, ix, i as int);
            }
            
        }
    }
    assert(first_indices_by_key(s, k, ix));
    r
}

/// The order key of `o`, as the listing computes it.
pub fn option_key_of(o: &OpenOption) -> (r: OptionKey)
    ensures
        r@ == option_key(*o),
{
    proof {
        reveal_strlit("");
        assert(""@ =~= Seq::<char>::empty());
    }
    let name = to_lowercase(o.name.as_str());
    let id = match &o.id {
        Some(s) => to_lowercase(s.as_str()),
        None => to_lowercase(""),
    };
    let path = match &o.path {
        Some(s) => to_lowercase(s.as_str()),
        None => to_lowercase(""),
    };
    OptionKey { name, id, path }
}

/// The options that `fed --options` lists: the named ones, ordered by their
/// lower-cased name, identifier and path, with only the first of each such key.
pub fn sorted_unique_options(options: Vec<OpenOption>) -> (r: Vec<OpenOption>)
    ensures
        sorted_unique(options@, keys_of(options@), r@),
{
    let mut keys: Vec<OptionKey> = Vec::new();
    for i in 0..options.len()
        invariant
            keys@.len() == i,
            forall|j: int| 0 <= j < i ==> (#[trigger] keys@[j])@ == option_key(options@[j]),
    {
        keys.push(option_key_of(&options[i]));
    }
    assert(keys@.map_values(|x: OptionKey| x@) =~= keys_of(options@));
    sorted_unique_by_key(options, keys)
}

proof fn lemma_sorted_enumeration_unique(k: Seq<KeyView>, a: Seq<int>, b: Seq<int>)
    requires
        forall|j: int| 0 <= j < a.len() ==> 0 <= #[trigger] a[j] < k.len(),
        forall|j: int| 0 <= j < b.len() ==> 0 <= #[trigger] b[j] < k.len(),
        forall|j1: int, j2: int|
            0 <= j1 < j2 < a.len() ==> key_lt(k[#[trigger] a[j1]], k[#[trigger] a[j2]]),
        forall|j1: int, j2: int|
            0 <= j1 < j2 < b.len() ==> key_lt(k[#[trigger] b[j1]], k[#[trigger] b[j2]]),
        forall|x: int| a.contains(x) <==> b.contains(x),
    ensures
        a == b,
    decreases a.len(),
{
    if a.len() == 0 {
        if b.len() > 0 {
            assert(b.contains(b[0]));
        }
        assert(a =~= b);
    } else if b.len() == 0 {
        assert(a.contains(a[0]));
    } else {
        assert(a.contains(a[0]));
        assert(b.contains(b[0]));
        let q = choose|q: int| 0 <= q < b.len() && b[q] == a[0];
        let p = choose|p: int| 0 <= p < a.len() && a[p] == b[0];
        if a[0] != b[0] {
            assert(p > 0 && q > 0);
            assert(key_lt(k[a[0]], k[a[p]]));
            assert(key_lt(k[b[0]], k[b[q]]));
            lemma_key_lt_order(k[a[0]], k[b[0]], k[a[0]]);
        }
        let a1 = a.drop_first();
        let b1 = b.drop_first();
        assert forall|x: int| a1.contains(x) <==> b1.contains(x) by {
            if a1.contains(x) {
                let m = choose|m: int| 0 <= m < a1.len() && a1[m] == x;
                assert(a[m + 1] == x);
                assert(key_lt(k[a[0]], k[a[m + 1]]));
                lemma_key_lt_order(k[a[0]], k[a[0]], k[a[0]]);
                assert(a.contains(x));
                let n = choose|n: int| 0 <= n < b.len() && b[n] == x;
                assert(n != 0);
                assert(b1[n - 1] == x);
            }
            if b1.contains(x) {
                let m = choose|m: int| 0 <= m < b1.len() && b1[m] == x;
                assert(b[m + 1] == x);
                assert(key_lt(k[b[0]], k[b[m + 1]]));
                lemma_key_lt_order(k[b[0]], k[b[0]], k[b[0]]);
                assert(b.contains(x));
                let n = choose|n: int| 0 <= n < a.len() && a[n] == x;
                assert(n != 0);
                assert(a1[n - 1] == x);
            }
        }
        assert forall|j1: int, j2: int| 0 <= j1 < j2 < a1.len() implies key_lt(
            k[#[trigger] a1[j1]],
            k[#[trigger] a1[j2]],
        ) by {
            assert(a1[j1] == a[j1 + 1] && a1[j2] == a[j2 + 1]);
        }
        assert forall|j1: int, j2: int| 0 <= j1 < j2 < b1.len() implies key_lt(
            k[#[trigger] b1[j1]],
            k[#[trigger] b1[j2]],
        ) by {
            assert(b1[j1] == b[j1 + 1] && b1[j2] == b[j2 + 1]);
        }
        lemma_sorted_enumeration_unique(k, a1, b1);
        assert(a =~= seq![a[0]] + a1);
        assert(b =~= seq![b[0]] + b1);
    }
}

/// The listing is determined by what is listed: two lists that both meet
/// `sorted_unique` for the same options and keys are the same list.
pub proof fn lemma_sorted_unique_determined(
    s: Seq<OpenOption>,
    k: Seq<KeyView>,
    r1: Seq<OpenOption>,
    r2: Seq<OpenOption>,
)
    requires
        k.len() == s.len(),
        sorted_unique(s, k, r1),
        sorted_unique(s, k, r2),
    ensures
        r1 == r2,
{
    let ix1 = choose|ix: Seq<int>|
        {
            &&& ix.len() == r1.len()
            &&& first_indices_by_key(s, k, ix)
            &&& forall|j: int| 0 <= j < r1.len() ==> #[trigger] r1[j] == s[ix[j]]
        };
    let ix2 = choose|ix: Seq<int>|
        {
            &&& ix.len() == r2.len()
            &&& first_indices_by_key(s, k, ix)
            &&& forall|j: int| 0 <= j < r2.len() ==> #[trigger] r2[j] == s[ix[j]]
        };
    assert forall|x: int| ix1.contains(x) <==> ix2.contains(x) by {
        if ix1.contains(x) {
            let j = choose|j: int| 0 <= j < ix1.len() && ix1[j] == x;
            assert(first_of_key(s, k, ix1[j]));
        }
        if ix2.contains(x) {
            let j = choose|j: int| 0 <= j < ix2.len() && ix2[j] == x;
            assert(first_of_key(s, k, ix2[j]));
        }
    }
    assert forall|j: int| 0 <= j < ix1.len() implies 0 <= #[trigger] ix1[j] < k.len() by {
        assert(first_of_key(s, k, ix1[j]));
    }
    assert forall|j: int| 0 <= j < ix2.len() implies 0 <= #[trigger] ix2[j] < k.len() by {
        assert(first_of_key(s, k, ix2[j]));
    }
    lemma_sorted_enumeration_unique(k, ix1, ix2);
    assert forall|j: int| 0 <= j < r1.len() implies r1[j] == r2[j] by {
        assert(r1[j] == s[ix1[j]]);
        assert(r2[j] == s[ix2[j]]);
    }
    assert(r1 =~= r2);
}

/// Listing an already listed set of options gives it back unchanged.
pub proof fn lemma_sorted_unique_idempotent(s: Seq<OpenOption>, r: Seq<OpenOption>)
    requires
        sorted_unique(s, keys_of(s), r),
    ensures
        sorted_unique(r, keys_of(r), r),
{
    let k = keys_of(s);
    let kr = keys_of(r);
    let ix = choose|ix: Seq<int>|
        {
            &&& ix.len() == r.len()
            &&& first_indices_by_key(s, k, ix)
            &&& forall|j: int| 0 <= j < r.len() ==> #[trigger] r[j] == s[ix[j]]
        };
    assert forall|j: int| 0 <= j < r.len() implies #[trigger] kr[j] == k[ix[j]] && named(r[j]) by {
        assert(r[j] == s[ix[j]]);
        assert(first_of_key(s, k, ix[j]));
    }
    let id = Seq::new(r.len(), |j: int| j);
    assert forall|j: int| 0 <= j < id.len() implies first_of_key(r, kr, #[trigger] id[j]) by {
        assert forall|h: int| 0 <= h < j && named(r[h]) implies kr[h] != kr[j] by {
            assert(kr[h] == k[ix[h]] && kr[j] == k[ix[j]]);
            assert(key_lt(k[ix[h]], k[ix[j]]));
            lemma_key_lt_order(k[ix[j]], k[ix[j]], k[ix[j]]);
        }
    }
    assert forall|j1: int, j2: int| 0 <= j1 < j2 < id.len() implies key_lt(
        kr[#[trigger] id[j1]],
        kr[#[trigger] id[j2]],
    ) by {
        assert(kr[j1] == k[ix[j1]] && kr[j2] == k[ix[j2]]);
    }
    assert forall|i: int| first_of_key(r, kr, i) implies #[trigger] id.contains(i) by {
        assert(id[i] == i);
    }
    assert forall|j: int| 0 <= j < r.len() implies #[trigger] r[j] == r[id[j]] by {}
    assert(first_indices_by_key(r, kr, id));
}

/// What the listing promises, put plainly: every listed option is one of the
/// given options and is named, no two listed options share a key, and every
/// named option given has its key listed.
pub proof fn lemma_sorted_unique_listing(s: Seq<OpenOption>, r: Seq<OpenOption>)
    requires
        sorted_unique(s, keys_of(s), r),
    ensures
        forall|j: int| 0 <= j < r.len() ==> s.contains(#[trigger] r[j]) && named(r[j]),
        forall|j1: int, j2: int|
            0 <= j1 < j2 < r.len() ==> option_key(#[trigger] r[j1]) != option_key(
                #[trigger] r[j2],
            ),
        forall|j1: int, j2: int|
            0 <= j1 < j2 < r.len() ==> key_lt(option_key(#[trigger] r[j1]), option_key(#[trigger] r[j2])),
        forall|i: int|
            0 <= i < s.len() && named(#[trigger] s[i]) ==> exists|j: int|
                0 <= j < r.len() && option_key(r[j]) == option_key(s[i]),
{
    let k = keys_of(s);
    let ix = choose|ix: Seq<int>|
        {
            &&& ix.len() == r.len()
            &&& first_indices_by_key(s, k, ix)
            &&& forall|j: int| 0 <= j < r.len() ==> #[trigger] r[j] == s[ix[j]]
        };
    assert forall|j: int| 0 <= j < r.len() implies s.contains(#[trigger] r[j]) && named(r[j])
        && option_key(r[j]) == k[ix[j]] by {
        assert(r[j] == s[ix[j]]);
        assert(first_of_key(s, k, ix[j]));
    }
    assert forall|j1: int, j2: int| 0 <= j1 < j2 < r.len() implies option_key(
        #[trigger] r[j1],
    ) != option_key(#[trigger] r[j2]) by {
        assert(key_lt(k[ix[j1]], k[ix[j2]]));
        lemma_key_lt_order(k[ix[j2]], k[ix[j2]], k[ix[j2]]);
    }
    assert forall|j1: int, j2: int| 0 <= j1 < j2 < r.len() implies key_lt(
        option_key(#[trigger] r[j1]),
        option_key(#[trigger] r[j2]),
    ) by {
        assert(key_lt(k[ix[j1]], k[ix[j2]]));
    }
    assert forall|i: int| 0 <= i < s.len() && named(#[trigger] s[i]) implies exists|j: int|
        0 <= j < r.len() && option_key(r[j]) == option_key(s[i]) by {
        lemma_first_of_key_exists(s, k, i);
        let f = choose|f: int| first_of_key(s, k, f) && k[f] == k[i];
        assert(ix.contains(f));
        let j = choose|j: int| 0 <= j < ix.len() && ix[j] == f;
        assert(option_key(r[j]) == k[ix[j]]);
    }
}

/// Every named option has a first named option with its key, at or before it.
proof fn lemma_first_of_key_exists(s: Seq<OpenOption>, k: Seq<KeyView>, i: int)
    requires
        0 <= i < s.len() == k.len(),
        named(s[i]),
    ensures
        exists|f: int| first_of_key(s, k, f) && k[f] == k[i],
    decreases i,
{
    if !first_of_key(s, k, i) {
        let h = choose|h: int| 0 <= h < i && named(s[h]) && k[h] == k[i];
        lemma_first_of_key_exists(s, k, h);
    } else {
        assert(first_of_key(s, k, i) && k[i] == k[i]);
    }
}

proof fn lemma_first_occurrence(s: Seq<OpenOption>, o: OpenOption)
    requires
        s.contains(o),
    ensures
        exists|f: int| 0 <= f < s.len() && s[f] == o && forall|h: int| 0 <= h < f ==> s[h] != o,
    decreases s.len(),
{
    let init = s.drop_last();
    if init.contains(o) {
        lemma_first_occurrence(init, o);
        let f = choose|f: int|
            0 <= f < init.len() && init[f] == o && forall|h: int| 0 <= h < f ==> init[h] != o;
        assert(s[f] == o);
        assert forall|h: int| 0 <= h < f implies s[h] != o by {
            assert(s[h] == init[h]);
        }
    } else {
        let f = s.len() - 1;
        assert(s[f] == o) by {
            let m = choose|m: int| 0 <= m < s.len() && s[m] == o;
            if m < f {
                assert(init[m] == o);
            }
        }
        assert forall|h: int| 0 <= h < f implies s[h] != o by {
            if s[h] == o {
                assert(init[h] == o);
            }
        }
    }
}

/// Where no two different named options share a key, the listing does not
/// depend on the order in which the options come: inputs with the same named
/// options give the same listing.
pub proof fn lemma_listing_ignores_order(s1: Seq<OpenOption>, s2: Seq<OpenOption>, r: Seq<OpenOption>)
    requires
        forall|o: OpenOption| named(o) ==> (s1.contains(o) <==> s2.contains(o)),
        forall|a: int, b: int|
            0 <= a < s1.len() && 0 <= b < s1.len() && named(s1[a]) && named(s1[b]) && option_key(
                #[trigger] s1[a],
            ) == option_key(#[trigger] s1[b]) ==> s1[a] == s1[b],
        sorted_unique(s1, keys_of(s1), r),
    ensures
        sorted_unique(s2, keys_of(s2), r),
{
    let k1 = keys_of(s1);
    let k2 = keys_of(s2);
    lemma_sorted_unique_listing(s1, r);
    let ix1 = choose|ix: Seq<int>|
        {
            &&& ix.len() == r.len()
            &&& first_indices_by_key(s1, k1, ix)
            &&& forall|j: int| 0 <= j < r.len() ==> #[trigger] r[j] == s1[ix[j]]
        };
    // Two named options of either input with the same key are the same option.
    assert forall|x: OpenOption, y: OpenOption|
        named(x) && named(y) && s1.contains(x) && s1.contains(y) && option_key(x) == option_key(y)
        implies x == y by {
        let a = choose|a: int| 0 <= a < s1.len() && s1[a] == x;
        let b = choose|b: int| 0 <= b < s1.len() && s1[b] == y;
    }
    assert forall|j: int| 0 <= j < r.len() implies s2.contains(#[trigger] r[j]) && named(r[j])
        && s1.contains(r[j]) by {}
    let ix2 = Seq::new(
        r.len(),
        |j: int|
            choose|f: int|
                0 <= f < s2.len() && s2[f] == r[j] && forall|h: int| 0 <= h < f ==> s2[h] != r[j],
    );
    assert forall|j: int| 0 <= j < r.len() implies 0 <= #[trigger] ix2[j] < s2.len() && s2[ix2[j]]
        == r[j] && forall|h: int| 0 <= h < ix2[j] ==> s2[h] != r[j] by {
        lemma_first_occurrence(s2, r[j]);
    }
    assert forall|j: int| 0 <= j < ix2.len() implies first_of_key(s2, k2, #[trigger] ix2[j]) by {
        assert forall|h: int| 0 <= h < ix2[j] && named(s2[h]) implies k2[h] != k2[ix2[j]] by {
            if k2[h] == k2[ix2[j]] {
                assert(s2.contains(s2[h]));
                assert(s1.contains(s2[h]));
                assert(s2[h] == r[j]);
            }
        }
    }
    assert forall|j1: int, j2: int| 0 <= j1 < j2 < ix2.len() implies key_lt(
        k2[#[trigger] ix2[j1]],
        k2[#[trigger] ix2[j2]],
    ) by {
        assert(r[j1] == s1[ix1[j1]] && r[j2] == s1[ix1[j2]]);
        assert(key_lt(k1[ix1[j1]], k1[ix1[j2]]));
    }
    assert forall|i: int| first_of_key(s2, k2, i) implies #[trigger] ix2.contains(i) by {
        assert(s2.contains(s2[i]));
        assert(s1.contains(s2[i]));
        let a = choose|a: int| 0 <= a < s1.len() && s1[a] == s2[i];
        let j = choose|j: int| 0 <= j < r.len() && option_key(r[j]) == option_key(s1[a]);
        assert(r[j] == s2[i]);
        if ix2[j] < i {
            assert(k2[ix2[j]] == k2[i]);
        }
        assert(ix2[j] == i);
    }
    assert forall|j: int| 0 <= j < r.len() implies #[trigger] r[j] == s2[ix2[j]] by {}
    assert(first_indices_by_key(s2, k2, ix2));
}

/// Two key sequences in strictly increasing order that hold the same keys
/// are the same sequence.
proof fn lemma_sorted_keys_unique(a: Seq<KeyView>, b: Seq<KeyView>)
    requires
        forall|j1: int, j2: int| 0 <= j1 < j2 < a.len() ==> key_lt(#[trigger] a[j1], #[trigger] a[j2]),
        forall|j1: int, j2: int| 0 <= j1 < j2 < b.len() ==> key_lt(#[trigger] b[j1], #[trigger] b[j2]),
        forall|x: KeyView| a.contains(x) <==> b.contains(x),
    ensures
        a == b,
    decreases a.len(),
{
    if a.len() == 0 {
        if b.len() > 0 {
            assert(b.contains(b[0]));
        }
        assert(a =~= b);
    } else if b.len() == 0 {
        assert(a.contains(a[0]));
    } else {
        assert(a.contains(a[0]));
        assert(b.contains(b[0]));
        let q = choose|q: int| 0 <= q < b.len() && b[q] == a[0];
        let p = choose|p: int| 0 <= p < a.len() && a[p] == b[0];
        if a[0] != b[0] {
            assert(p > 0 && q > 0);
            assert(key_lt(a[0], a[p]));
            assert(key_lt(b[0], b[q]));
            lemma_key_lt_order(a[0], b[0], a[0]);
        }
        let a1 = a.drop_first();
        let b1 = b.drop_first();
        assert forall|x: KeyView| a1.contains(x) <==> b1.contains(x) by {
            if a1.contains(x) {
                let m = choose|m: int| 0 <= m < a1.len() && a1[m] == x;
                assert(a[m + 1] == x);
                assert(key_lt(a[0], a[m + 1]));
                lemma_key_lt_order(a[0], a[0], a[0]);
                assert(a.contains(x));
                let n = choose|n: int| 0 <= n < b.len() && b[n] == x;
                assert(n != 0);
                assert(b1[n - 1] == x);
            }
            if b1.contains(x) {
                let m = choose|m: int| 0 <= m < b1.len() && b1[m] == x;
                assert(b[m + 1] == x);
                assert(key_lt(b[0], b[m + 1]));
                lemma_key_lt_order(b[0], b[0], b[0]);
                assert(b.contains(x));
                let n = choose|n: int| 0 <= n < a.len() && a[n] == x;
                assert(n != 0);
                assert(a1[n - 1] == x);
            }
        }
        assert forall|j1: int, j2: int| 0 <= j1 < j2 < a1.len() implies key_lt(
            #[trigger] a1[j1],
            #[trigger] a1[j2],
        ) by {
            assert(a1[j1] == a[j1 + 1] && a1[j2] == a[j2 + 1]);
        }
        assert forall|j1: int, j2: int| 0 <= j1 < j2 < b1.len() implies key_lt(
            #[trigger] b1[j1],
            #[trigger] b1[j2],
        ) by {
            assert(b1[j1] == b[j1 + 1] && b1[j2] == b[j2 + 1]);
        }
        lemma_sorted_keys_unique(a1, b1);
        assert(a =~= seq![a[0]] + a1);
        assert(b =~= seq![b[0]] + b1);
    }
}

proof fn lemma_same_multiset_same_elements(xs: Seq<OpenOption>, ys: Seq<OpenOption>)
    requires
        xs.to_multiset() == ys.to_multiset(),
    ensures
        forall|o: OpenOption| xs.contains(o) <==> ys.contains(o),
{
    xs.to_multiset_ensures();
    ys.to_multiset_ensures();
    assert forall|o: OpenOption| xs.contains(o) <==> ys.contains(o) by {
        assert(xs.contains(o) <==> xs.to_multiset().count(o) > 0);
        assert(ys.contains(o) <==> ys.to_multiset().count(o) > 0);
    }
}

/// Every key that the listing of `xs` holds, the listing of `ys` holds too,
/// where `ys` holds every option of `xs`.
proof fn lemma_listed_keys_included(
    xs: Seq<OpenOption>,
    ys: Seq<OpenOption>,
    rx: Seq<OpenOption>,
    ry: Seq<OpenOption>,
)
    requires
        forall|o: OpenOption| xs.contains(o) ==> ys.contains(o),
        sorted_unique(xs, keys_of(xs), rx),
        sorted_unique(ys, keys_of(ys), ry),
    ensures
        forall|x: KeyView| keys_of(rx).contains(x) ==> keys_of(ry).contains(x),
{
    lemma_sorted_unique_listing(xs, rx);
    lemma_sorted_unique_listing(ys, ry);
    let a = keys_of(rx);
    let b = keys_of(ry);
    assert forall|x: KeyView| a.contains(x) implies b.contains(x) by {
        let j = choose|j: int| 0 <= j < a.len() && a[j] == x;
        assert(xs.contains(rx[j]) && named(rx[j]));
        assert(ys.contains(rx[j]));
        let i = choose|i: int| 0 <= i < ys.len() && ys[i] == rx[j];
        assert(named(ys[i]));
        let j2 = choose|j2: int| 0 <= j2 < ry.len() && option_key(ry[j2]) == option_key(ys[i]);
        assert(b[j2] == x);
    }
}

/// The keys of a listing come in strictly increasing order.
proof fn lemma_listed_keys_sorted(s: Seq<OpenOption>, r: Seq<OpenOption>)
    requires
        sorted_unique(s, keys_of(s), r),
    ensures
        forall|j1: int, j2: int|
            0 <= j1 < j2 < r.len() ==> key_lt(#[trigger] keys_of(r)[j1], #[trigger] keys_of(r)[j2]),
{
    lemma_sorted_unique_listing(s, r);
    assert forall|j1: int, j2: int| 0 <= j1 < j2 < r.len() implies key_lt(
        #[trigger] keys_of(r)[j1],
        #[trigger] keys_of(r)[j2],
    ) by {
        assert(key_lt(option_key(r[j1]), option_key(r[j2])));
    }
}

/// The keys of the listing do not depend on the order of the options: two
/// inputs that are permutations of each other (the same options, each as
/// often) list the same keys in the same order; and where no two different
/// named options share a key, they give the same listing.
pub proof fn lemma_listing_keys_ignore_order(
    xs: Seq<OpenOption>,
    ys: Seq<OpenOption>,
    rx: Seq<OpenOption>,
    ry: Seq<OpenOption>,
)
    requires
        xs.to_multiset() == ys.to_multiset(),
        sorted_unique(xs, keys_of(xs), rx),
        sorted_unique(ys, keys_of(ys), ry),
    ensures
        keys_of(rx) == keys_of(ry),
        (forall|a: int, b: int|
            0 <= a < xs.len() && 0 <= b < xs.len() && named(xs[a]) && named(xs[b]) && option_key(
                #[trigger] xs[a],
            ) == option_key(#[trigger] xs[b]) ==> xs[a] == xs[b]) ==> rx == ry,
{
    lemma_same_multiset_same_elements(xs, ys);
    lemma_listed_keys_included(xs, ys, rx, ry);
    lemma_listed_keys_included(ys, xs, ry, rx);
    lemma_listed_keys_sorted(xs, rx);
    lemma_listed_keys_sorted(ys, ry);
    lemma_sorted_keys_unique(keys_of(rx), keys_of(ry));
    if forall|p: int, q: int|
        0 <= p < xs.len() && 0 <= q < xs.len() && named(xs[p]) && named(xs[q]) && option_key(
            #[trigger] xs[p],
        ) == option_key(#[trigger] xs[q]) ==> xs[p] == xs[q] {
        lemma_listing_ignores_order(xs, ys, rx);
        lemma_sorted_unique_determined(ys, keys_of(ys), rx, ry);
    }
}

/// The listing is ordered by lower-cased name first, by code point; between
/// equal names by lower-cased identifier (an absent one counting as empty);
/// between equal names and identifiers by lower-cased path.
pub proof fn lemma_listing_ordered_by_name_first(s: Seq<OpenOption>, r: Seq<OpenOption>)
    requires
        sorted_unique(s, keys_of(s), r),
    ensures
        forall|j1: int, j2: int|
            0 <= j1 < j2 < r.len() ==> !chars_lt(
                lowercase((#[trigger] r[j2]).name@),
                lowercase((#[trigger] r[j1]).name@),
            ),
        forall|j1: int, j2: int|
            0 <= j1 < j2 < r.len() && lowercase((#[trigger] r[j1]).name@) == lowercase(
                (#[trigger] r[j2]).name@,
            ) ==> !chars_lt(lowercase(text_or_empty(r[j2].id)), lowercase(text_or_empty(r[j1].id))),
        forall|j1: int, j2: int|
            0 <= j1 < j2 < r.len() && lowercase((#[trigger] r[j1]).name@) == lowercase(
                (#[trigger] r[j2]).name@,
            ) && lowercase(text_or_empty(r[j1].id)) == lowercase(text_or_empty(r[j2].id))
                ==> chars_lt(lowercase(text_or_empty(r[j1].path)), lowercase(text_or_empty(r[j2].path))),
{
    lemma_sorted_unique_listing(s, r);
    assert forall|j1: int, j2: int| #![trigger r[j1], r[j2]] 0 <= j1 < j2 < r.len() implies {
        let (n1, i1, p1) = (lowercase(r[j1].name@), lowercase(text_or_empty(r[j1].id)), lowercase(text_or_empty(r[j1].path)));
        let (n2, i2, p2) = (lowercase(r[j2].name@), lowercase(text_or_empty(r[j2].id)), lowercase(text_or_empty(r[j2].path)));
        &&& !chars_lt(n2, n1)
        &&& n1 == n2 ==> !chars_lt(i2, i1)
        &&& n1 == n2 && i1 == i2 ==> chars_lt(p1, p2)
    } by {
        let a = option_key(r[j1]);
        let b = option_key(r[j2]);
        assert(key_lt(a, b));
        lemma_chars_lt_asymmetric(a.0, b.0);
        lemma_chars_lt_irreflexive(a.0);
        lemma_chars_lt_asymmetric(a.1, b.1);
        lemma_chars_lt_irreflexive(a.1);
        lemma_chars_lt_irreflexive(a.2);
    }
}

} // verus!
