//! Stable ordering by composite keys: numbers and texts compared part by part,
//! the input position breaking ties. Every sort in the library goes
//! through `sort_indices`.

use vstd::prelude::*;
use crate::text::{
    compare_str, lemma_text_lt_irrefl, lemma_text_lt_total, lemma_text_lt_trans, text_lt, Order,
};

verus! {

/// One component of a sort key.
pub enum KeyPart {
    Num(u64),
    Text(String),
}

pub enum KeyPartV {
    Num(u64),
    Text(Seq<char>),
}

impl View for KeyPart {
    type V = KeyPartV;

    open spec fn view(&self) -> KeyPartV {
        match self {
            KeyPart::Num(n) => KeyPartV::Num(*n),
            KeyPart::Text(s) => KeyPartV::Text(s@),
        }
    }
}

/// A composite key, compared part by part.
pub struct SortKey {
    pub parts: Vec<KeyPart>,
}

pub open spec fn key_view(k: SortKey) -> Seq<KeyPartV> {
    k.parts@.map_values(|p: KeyPart| p@)
}

pub open spec fn keys_view(ks: Seq<SortKey>) -> Seq<Seq<KeyPartV>> {
    ks.map_values(|k: SortKey| key_view(k))
}

pub open spec fn part_lt(a: KeyPartV, b: KeyPartV) -> bool {
    match (a, b) {
        (KeyPartV::Num(x), KeyPartV::Num(y)) => x < y,
        (KeyPartV::Num(_), KeyPartV::Text(_)) => true,
        (KeyPartV::Text(_), KeyPartV::Num(_)) => false,
        (KeyPartV::Text(x), KeyPartV::Text(y)) => text_lt(x, y),
    }
}

/// Lexicographic order of keys.
pub open spec fn key_lt(a: Seq<KeyPartV>, b: Seq<KeyPartV>) -> bool
    decreases a.len(),
{
    if a.len() == 0 {
        b.len() > 0
    } else if b.len() == 0 {
        false
    } else if a[0] != b[0] {
        part_lt(a[0], b[0])
    } else {
        key_lt(a.drop_first(), b.drop_first())
    }
}

proof fn lemma_part_lt(a: KeyPartV, b: KeyPartV, c: KeyPartV)
    ensures
        !part_lt(a, a),
        a == b || part_lt(a, b) || part_lt(b, a),
        !(part_lt(a, b) && part_lt(b, a)),
        part_lt(a, b) && part_lt(b, c) ==> part_lt(a, c),
{
    match (a, b) {
        (KeyPartV::Text(x), KeyPartV::Text(y)) => {
            lemma_text_lt_irrefl(x);
            lemma_text_lt_total(x, y);
        },
        (KeyPartV::Text(x), _) => {
            lemma_text_lt_irrefl(x);
        },
        _ => {},
    }
    match (a, b, c) {
        (KeyPartV::Text(x), KeyPartV::Text(y), KeyPartV::Text(z)) => {
            if text_lt(x, y) && text_lt(y, z) {
                lemma_text_lt_trans(x, y, z);
            }
        },
        _ => {},
    }
}

pub proof fn lemma_key_lt_irrefl(a: Seq<KeyPartV>)
    ensures
        !key_lt(a, a),
    decreases a.len(),
{
    if a.len() > 0 {
        lemma_key_lt_irrefl(a.drop_first());
    }
}

pub proof fn lemma_key_lt_total(a: Seq<KeyPartV>, b: Seq<KeyPartV>)
    ensures
        a == b || key_lt(a, b) || key_lt(b, a),
        !(key_lt(a, b) && key_lt(b, a)),
    decreases a.len(),
{
    if a.len() > 0 && b.len() > 0 {
        lemma_part_lt(a[0], b[0], a[0]);
        lemma_key_lt_total(a.drop_first(), b.drop_first());
        if a[0] == b[0] && a.drop_first() == b.drop_first() {
            assert(a =~= seq![a[0]] + a.drop_first());
            assert(b =~= seq![b[0]] + b.drop_first());
        }
    } else if a.len() == 0 && b.len() == 0 {
        assert(a =~= b);
    }
}

pub proof fn lemma_key_lt_trans(a: Seq<KeyPartV>, b: Seq<KeyPartV>, c: Seq<KeyPartV>)
    requires
        key_lt(a, b),
        key_lt(b, c),
    ensures
        key_lt(a, c),
    decreases a.len(),
{
    if a.len() > 0 && b.len() > 0 && c.len() > 0 {
        lemma_part_lt(a[0], b[0], c[0]);
        lemma_part_lt(a[0], c[0], b[0]);
        if a[0] == b[0] && b[0] == c[0] {
            lemma_key_lt_trans(a.drop_first(), b.drop_first(), c.drop_first());
        }
    }
}

fn part_order(a: &KeyPart, b: &KeyPart) -> (r: Order)
    ensures
        r == (if a@ == b@ {
            Order::Equal
        } else if part_lt(a@, b@) {
            Order::Less
        } else {
            Order::Greater
        }),
{
    proof {
        lemma_part_lt(a@, b@, a@);
    }
    match (a, b) {
        (KeyPart::Num(x), KeyPart::Num(y)) => if *x == *y {
            Order::Equal
        } else if *x < *y {
            Order::Less
        } else {
            Order::Greater
        },
        (KeyPart::Num(_), KeyPart::Text(_)) => Order::Less,
        (KeyPart::Text(_), KeyPart::Num(_)) => Order::Greater,
        (KeyPart::Text(x), KeyPart::Text(y)) => compare_str(x.as_str(), y.as_str()),
    }
}

/// Is key `a` strictly below key `b`?
pub fn key_less(a: &SortKey, b: &SortKey) -> (r: bool)
    ensures
        r == key_lt(key_view(*a), key_view(*b)),
{
    let ghost ka = key_view(*a);
    let ghost kb = key_view(*b);
    let mut i: usize = 0;
    assert(ka.skip(0) =~= ka);
    assert(kb.skip(0) =~= kb);
    while i < a.parts.len() && i < b.parts.len()
        invariant
            i <= a.parts.len(),
            i <= b.parts.len(),
            ka == key_view(*a),
            kb == key_view(*b),
            key_lt(ka, kb) == key_lt(ka.skip(i as int), kb.skip(i as int)),
        decreases a.parts.len() - i,
    {
        let o = part_order(&a.parts[i], &b.parts[i]);
        proof {
            let sa = ka.skip(i as int);
            let sb = kb.skip(i as int);
            assert(sa[0] == a.parts@[i as int]@);
            assert(sb[0] == b.parts@[i as int]@);
            assert(sa.drop_first() =~= ka.skip(i + 1));
            assert(sb.drop_first() =~= kb.skip(i + 1));
        }
        match o {
            Order::Less => {
                return true;
            },
            Order::Greater => {
                return false;
            },
            Order::Equal => {},
        }
        i = i + 1;
    }
    i < b.parts.len()
}

/// `(key, position)` order: the key first, the input position on ties.
pub open spec fn entry_lt(keys: Seq<Seq<KeyPartV>>, i: int, j: int) -> bool {
    key_lt(keys[i], keys[j]) || (keys[i] == keys[j] && i < j)
}

/// `r` lists `0..n` once each.
pub open spec fn is_permutation_of_range(r: Seq<usize>, n: int) -> bool {
    &&& r.len() == n
    &&& forall|i: int| 0 <= i < r.len() ==> r[i] < n
    &&& forall|i: int, j: int| 0 <= i < j < r.len() ==> r[i] != r[j]
}

/// `r` is in strictly increasing `(key, position)` order.
pub open spec fn is_stably_sorted(keys: Seq<Seq<KeyPartV>>, r: Seq<usize>) -> bool {
    forall|i: int, j: int|
        0 <= i < j < r.len() ==> entry_lt(keys, #[trigger] r[i] as int, #[trigger] r[j] as int)
}

proof fn lemma_entry_lt(keys: Seq<Seq<KeyPartV>>, a: int, b: int, c: int)
    ensures
        !(entry_lt(keys, a, b) && entry_lt(keys, b, a)),
        entry_lt(keys, a, b) && entry_lt(keys, b, c) ==> entry_lt(keys, a, c),
        a != b ==> entry_lt(keys, a, b) || entry_lt(keys, b, a),
{
    lemma_key_lt_total(keys[a], keys[b]);
    lemma_key_lt_irrefl(keys[a]);
    if entry_lt(keys, a, b) && entry_lt(keys, b, c) {
        if key_lt(keys[a], keys[b]) && key_lt(keys[b], keys[c]) {
            lemma_key_lt_trans(keys[a], keys[b], keys[c]);
        }
    }
}

/// Where position `k` goes among the sorted positions `r`: before the first
/// one whose key is strictly above its own.
pub open spec fn insert_pos(keys: Seq<Seq<KeyPartV>>, r: Seq<usize>, k: int) -> int
    decreases r.len(),
{
    if r.len() == 0 {
        0
    } else if key_lt(keys[k], keys[r[0] as int]) {
        0
    } else {
        1 + insert_pos(keys, r.drop_first(), k)
    }
}

/// The first `n` positions in stable key order (insertion order).
pub open spec fn sorted_positions(keys: Seq<Seq<KeyPartV>>, n: nat) -> Seq<usize>
    decreases n,
{
    if n == 0 {
        seq![]
    } else {
        let r = sorted_positions(keys, (n - 1) as nat);
        r.insert(insert_pos(keys, r, n - 1), (n - 1) as usize)
    }
}

proof fn lemma_insert_pos_split(keys: Seq<Seq<KeyPartV>>, r: Seq<usize>, k: int, p: int)
    requires
        0 <= p <= r.len(),
        forall|q: int| 0 <= q < p ==> !key_lt(keys[k], keys[#[trigger] r[q] as int]),
    ensures
        insert_pos(keys, r, k) == p + insert_pos(keys, r.skip(p), k),
    decreases p,
{
    if p > 0 {
        assert(!key_lt(keys[k], keys[r[0] as int]));
        assert forall|q: int| 0 <= q < p - 1 implies !key_lt(
            keys[k],
            keys[#[trigger] r.drop_first()[q] as int],
        ) by {
            assert(r.drop_first()[q] == r[q + 1]);
        }
        lemma_insert_pos_split(keys, r.drop_first(), k, p - 1);
        assert(r.drop_first().skip(p - 1) =~= r.skip(p));
    } else {
        assert(r.skip(0) =~= r);
    }
}

proof fn lemma_insert_pos_bounds(keys: Seq<Seq<KeyPartV>>, r: Seq<usize>, k: int)
    ensures
        0 <= insert_pos(keys, r, k) <= r.len(),
    decreases r.len(),
{
    if r.len() > 0 {
        lemma_insert_pos_bounds(keys, r.drop_first(), k);
    }
}

/// The stable order of the first `n` positions lists `n` positions, each
/// below `n`.
pub proof fn lemma_sorted_positions_in_range(keys: Seq<Seq<KeyPartV>>, n: nat)
    ensures
        sorted_positions(keys, n).len() == n,
        forall|i: int| 0 <= i < n ==> #[trigger] sorted_positions(keys, n)[i] < n,
    decreases n,
{
    if n > 0 {
        let r = sorted_positions(keys, (n - 1) as nat);
        lemma_sorted_positions_in_range(keys, (n - 1) as nat);
        lemma_insert_pos_bounds(keys, r, n - 1);
        let p = insert_pos(keys, r, n - 1);
        let s = r.insert(p, (n - 1) as usize);
        assert forall|i: int| 0 <= i < n implies #[trigger] s[i] < n by {
            if i < p {
                assert(s[i] == r[i]);
            } else if i > p {
                assert(s[i] == r[i - 1]);
            }
        }
    }
}

/// The positions `0..keys.len()` in stable key order.
pub fn sort_indices(keys: &Vec<SortKey>) -> (r: Vec<usize>)
    ensures
        r@ == sorted_positions(keys_view(keys@), keys@.len() as nat),
        is_permutation_of_range(r@, keys@.len() as int),
        is_stably_sorted(keys_view(keys@), r@),
{
    let ghost kv = keys_view(keys@);
    let mut r: Vec<usize> = Vec::new();
    let mut k: usize = 0;
    while k < keys.len()
        invariant
            k <= keys.len(),
            kv == keys_view(keys@),
            is_permutation_of_range(r@, k as int),
            is_stably_sorted(kv, r@),
            r@ == sorted_positions(kv, k as nat),
        decreases keys.len() - k,
    {
        // first position whose key is strictly above key k
        let mut p: usize = 0;
        while p < r.len() && !key_less(&keys[k], &keys[r[p]])
            invariant
                p <= r.len(),
                k < keys.len(),
                kv == keys_view(keys@),
                is_permutation_of_range(r@, k as int),
                forall|q: int| 0 <= q < p ==> entry_lt(kv, #[trigger] r@[q] as int, k as int),
            decreases r.len() - p,
        {
            proof {
                let x = r@[p as int] as int;
                lemma_key_lt_total(kv[x], kv[k as int]);
                assert(kv[k as int] == key_view(keys@[k as int]));
                assert(kv[x] == key_view(keys@[x]));
            }
            p = p + 1;
        }
        proof {
            assert forall|q: int| 0 <= q < p implies !key_lt(kv[k as int], kv[#[trigger] r@[q] as int]) by {
                lemma_entry_lt(kv, r@[q] as int, k as int, r@[q] as int);
                lemma_key_lt_total(kv[r@[q] as int], kv[k as int]);
            }
            lemma_insert_pos_split(kv, r@, k as int, p as int);
            if p < r.len() {
                let x = r@[p as int] as int;
                assert(kv[k as int] == key_view(keys@[k as int]));
                assert(kv[x] == key_view(keys@[x]));
                assert(key_lt(kv[k as int], kv[x]));
                assert forall|q: int| p <= q < r.len() implies entry_lt(
                    kv,
                    k as int,
                    #[trigger] r@[q] as int,
                ) by {
                    if q > p {
                        assert(entry_lt(kv, x, r@[q] as int));
                        lemma_entry_lt(kv, k as int, x, r@[q] as int);
                    }
                }
            }
        }
        proof {
            if p < r.len() {
                assert(r@.skip(p as int)[0] == r@[p as int]);
            }
            assert(insert_pos(kv, r@, k as int) == p);
        }
        let ghost old_r = r@;
        r.insert(p, k);
        proof {
            assert forall|i: int, j: int| 0 <= i < j < r@.len() implies entry_lt(
                kv,
                #[trigger] r@[i] as int,
                #[trigger] r@[j] as int,
            ) by {
                if i < p && j < p {
                    assert(r@[i] == old_r[i] && r@[j] == old_r[j]);
                } else if i < p && j == p {
                } else if i < p && j > p {
                    assert(r@[i] == old_r[i] && r@[j] == old_r[j - 1]);
                } else if i == p {
                    assert(r@[j] == old_r[j - 1]);
                } else {
                    assert(r@[i] == old_r[i - 1] && r@[j] == old_r[j - 1]);
                }
            }
            assert forall|i: int, j: int| 0 <= i < j < r@.len() implies r@[i] != r@[j] by {
                lemma_entry_lt(kv, r@[i] as int, r@[j] as int, r@[i] as int);
                lemma_key_lt_irrefl(kv[r@[i] as int]);
            }
        }
        k = k + 1;
    }
    r
}

/// A key of one number.
pub fn num_key(n: u64) -> (r: SortKey)
    ensures
        key_view(r) == seq![KeyPartV::Num(n)],
{
    let mut parts: Vec<KeyPart> = Vec::new();
    parts.push(KeyPart::Num(n));
    let r = SortKey { parts };
    assert(key_view(r) =~= seq![KeyPartV::Num(n)]);
    r
}

/// Append a number to a key.
pub fn push_num(k: &mut SortKey, n: u64)
    ensures
        key_view(*final(k)) == key_view(*old(k)).push(KeyPartV::Num(n)),
{
    k.parts.push(KeyPart::Num(n));
    assert(key_view(*k) =~= key_view(*old(k)).push(KeyPartV::Num(n)));
}

/// Append a text to a key.
pub fn push_text(k: &mut SortKey, s: &str)
    ensures
        key_view(*final(k)) == key_view(*old(k)).push(KeyPartV::Text(s@)),
{
    k.parts.push(KeyPart::Text(s.to_owned()));
    assert(key_view(*k) =~= key_view(*old(k)).push(KeyPartV::Text(s@)));
}

/// The empty key.
pub fn empty_key() -> (r: SortKey)
    ensures
        key_view(r) == Seq::<KeyPartV>::empty(),
{
    let r = SortKey { parts: Vec::new() };
    assert(key_view(r) =~= Seq::<KeyPartV>::empty());
    r
}


/// Keys in strictly increasing order: sorted, with no key twice.
pub open spec fn strictly_sorted(v: Seq<Seq<KeyPartV>>) -> bool {
    forall|i: int, j: int| 0 <= i < j < v.len() ==> key_lt(#[trigger] v[i], #[trigger] v[j])
}

/// Add `k` to a strictly sorted set of keys, where it belongs; returns
/// whether it was new.
pub fn insert_key(keys: &mut Vec<SortKey>, k: SortKey) -> (added: bool)
    requires
        strictly_sorted(keys_view(old(keys)@)),
    ensures
        strictly_sorted(keys_view(final(keys)@)),
        added == !keys_view(old(keys)@).contains(key_view(k)),
        forall|x: Seq<KeyPartV>|
            #[trigger] keys_view(final(keys)@).contains(x) <==> (keys_view(old(keys)@).contains(x) || x
                == key_view(k)),
        final(keys)@.len() == old(keys)@.len() + (if added { 1int } else { 0int }),
{
    let ghost kk = key_view(k);
    let ghost old_v = keys_view(keys@);
    let mut i: usize = 0;
    while i < keys.len()
        invariant
            i <= keys.len(),
            keys@ == old(keys)@,
            old_v == keys_view(keys@),
            kk == key_view(k),
            strictly_sorted(old_v),
            forall|j: int| 0 <= j < i ==> key_lt(#[trigger] old_v[j], kk),
        decreases keys.len() - i,
    {
        if key_less(&k, &keys[i]) {
            keys.insert(i, k);
            proof {
                let nv = keys_view(keys@);
                assert(nv =~= old_v.insert(i as int, kk));
                assert forall|a: int, b: int| 0 <= a < b < nv.len() implies key_lt(#[trigger] nv[a], #[trigger] nv[b]) by {
                    if b < i {
                        assert(nv[a] == old_v[a] && nv[b] == old_v[b]);
                    } else if b == i {
                        assert(nv[a] == old_v[a]);
                    } else if a == i {
                        assert(nv[b] == old_v[b - 1]);
                        if b - 1 > i {
                            lemma_key_lt_trans(kk, old_v[i as int], old_v[b - 1]);
                        }
                    } else if a < i {
                        assert(nv[a] == old_v[a] && nv[b] == old_v[b - 1]);
                    } else {
                        assert(nv[a] == old_v[a - 1] && nv[b] == old_v[b - 1]);
                    }
                }
                if old_v.contains(kk) {
                    let j = choose|j: int| 0 <= j < old_v.len() && old_v[j] == kk;
                    lemma_key_lt_irrefl(kk);
                    if j >= i {
                        if j > i {
                            lemma_key_lt_trans(kk, old_v[i as int], old_v[j]);
                        }
                    }
                }
                assert forall|x: Seq<KeyPartV>| #[trigger] nv.contains(x) <==> (old_v.contains(x) || x == kk) by {
                    if nv.contains(x) {
                        let j = choose|j: int| 0 <= j < nv.len() && nv[j] == x;
                        if j < i {
                            assert(old_v[j] == x);
                        } else if j > i {
                            assert(old_v[j - 1] == x);
                        }
                    }
                    if old_v.contains(x) {
                        let j = choose|j: int| 0 <= j < old_v.len() && old_v[j] == x;
                        if j < i {
                            assert(nv[j] == x);
                        } else {
                            assert(nv[j + 1] == x);
                        }
                    }
                    if x == kk {
                        assert(nv[i as int] == x);
                    }
                }
            }
            return true;
        }
        if !key_less(&keys[i], &k) {
            proof {
                lemma_key_lt_total(old_v[i as int], kk);
                assert(old_v[i as int] == keys_view(keys@)[i as int]);
                assert(old_v.contains(kk));
            }
            return false;
        }
        i = i + 1;
    }
    keys.push(k);
    proof {
        let nv = keys_view(keys@);
        assert(nv =~= old_v.push(kk));
        assert forall|a: int, b: int| 0 <= a < b < nv.len() implies key_lt(#[trigger] nv[a], #[trigger] nv[b]) by {
            if b < old_v.len() {
                assert(nv[a] == old_v[a] && nv[b] == old_v[b]);
            } else {
                assert(nv[a] == old_v[a]);
            }
        }
        if old_v.contains(kk) {
            let j = choose|j: int| 0 <= j < old_v.len() && old_v[j] == kk;
            lemma_key_lt_irrefl(kk);
        }
        assert forall|x: Seq<KeyPartV>| #[trigger] nv.contains(x) <==> (old_v.contains(x) || x == kk) by {
            if nv.contains(x) {
                let j = choose|j: int| 0 <= j < nv.len() && nv[j] == x;
                if j < old_v.len() {
                    assert(old_v[j] == x);
                }
            }
            if old_v.contains(x) {
                let j = choose|j: int| 0 <= j < old_v.len() && old_v[j] == x;
                assert(nv[j] == x);
            }
            if x == kk {
                assert(nv[old_v.len() as int] == x);
            }
        }
    }
    true
}

/// Are two keys equal?
pub fn key_equal(a: &SortKey, b: &SortKey) -> (r: bool)
    ensures
        r == (key_view(*a) == key_view(*b)),
{
    proof {
        lemma_key_lt_total(key_view(*a), key_view(*b));
        lemma_key_lt_irrefl(key_view(*a));
    }
    !key_less(a, b) && !key_less(b, a)
}


/// A copy of a key.
pub fn copy_key(k: &SortKey) -> (r: SortKey)
    ensures
        key_view(r) == key_view(*k),
{
    let mut parts: Vec<KeyPart> = Vec::new();
    let mut i: usize = 0;
    while i < k.parts.len()
        invariant
            i <= k.parts@.len(),
            parts@.map_values(|p: KeyPart| p@) == k.parts@.take(i as int).map_values(|p: KeyPart| p@),
        decreases k.parts.len() - i,
    {
        let p = match &k.parts[i] {
            KeyPart::Num(n) => KeyPart::Num(*n),
            KeyPart::Text(t) => KeyPart::Text(t.clone()),
        };
        parts.push(p);
        proof {
            assert(k.parts@.take(i + 1) =~= k.parts@.take(i as int).push(k.parts@[i as int]));
            assert(parts@.map_values(|p: KeyPart| p@) =~= parts@.drop_last().map_values(|p: KeyPart| p@).push(
                parts@.last()@,
            ));
            assert(k.parts@.take(i + 1).map_values(|p: KeyPart| p@) =~= k.parts@.take(i as int).map_values(
                |p: KeyPart| p@,
            ).push(k.parts@[i as int]@));
        }
        i = i + 1;
    }
    assert(k.parts@.take(k.parts@.len() as int) =~= k.parts@);
    SortKey { parts }
}

/// How many of the first `n` keys equal `x`.
pub open spec fn occurrences(kv: Seq<Seq<KeyPartV>>, x: Seq<KeyPartV>, n: nat) -> nat
    decreases n,
{
    if n == 0 {
        0
    } else {
        occurrences(kv, x, (n - 1) as nat) + if kv[n - 1] == x {
            1nat
        } else {
            0nat
        }
    }
}

/// `r` tallies the keys `kv`: each distinct key once, in increasing order,
/// by the position of its first occurrence, with the number of its
/// occurrences.
pub open spec fn tally_ok(kv: Seq<Seq<KeyPartV>>, r: Seq<(usize, usize)>) -> bool {
    &&& forall|a: int| 0 <= a < r.len() ==> (#[trigger] r[a]).0 < kv.len() && r[a].1 == occurrences(kv, kv[r[a].0 as int], kv.len())
        && forall|i: int| 0 <= i < r[a].0 ==> #[trigger] kv[i] != kv[r[a].0 as int]
    &&& forall|a: int, b: int|
        0 <= a < b < r.len() ==> key_lt(kv[(#[trigger] r[a]).0 as int], kv[(#[trigger] r[b]).0 as int])
    &&& forall|i: int| 0 <= i < kv.len() ==> tallied_keys(kv, r).contains(#[trigger] kv[i])
}

/// The keys a tally lists, in order.
pub open spec fn tallied_keys(kv: Seq<Seq<KeyPartV>>, r: Seq<(usize, usize)>) -> Seq<Seq<KeyPartV>> {
    r.map_values(|p: (usize, usize)| kv[p.0 as int])
}

/// Two strictly increasing lists of the same keys are the same list.
proof fn lemma_sorted_same_keys(a: Seq<Seq<KeyPartV>>, b: Seq<Seq<KeyPartV>>)
    requires
        forall|i: int, j: int| 0 <= i < j < a.len() ==> key_lt(#[trigger] a[i], #[trigger] a[j]),
        forall|i: int, j: int| 0 <= i < j < b.len() ==> key_lt(#[trigger] b[i], #[trigger] b[j]),
        forall|x: Seq<KeyPartV>| a.contains(x) <==> b.contains(x),
    ensures
        a == b,
    decreases a.len(),
{
    if a.len() == 0 {
        if b.len() > 0 {
            assert(b.contains(b[0]));
        }
        assert(b.len() == 0);
    } else {
        assert(a.contains(a[0]));
        let j = choose|j: int| 0 <= j < b.len() && b[j] == a[0];
        assert(b.contains(b[0]));
        let i = choose|i: int| 0 <= i < a.len() && a[i] == b[0];
        if a[0] != b[0] {
            assert(i > 0 && j > 0);
            lemma_key_lt_total(a[0], b[0]);
        }
        let ra = a.drop_first();
        let rb = b.drop_first();
        assert forall|x: Seq<KeyPartV>| ra.contains(x) <==> rb.contains(x) by {
            if ra.contains(x) {
                let p = choose|p: int| 0 <= p < ra.len() && ra[p] == x;
                assert(a[p + 1] == x);
                assert(key_lt(a[0], x));
                lemma_key_lt_irrefl(x);
                assert(b.contains(x));
                let q = choose|q: int| 0 <= q < b.len() && b[q] == x;
                assert(q != 0);
                assert(rb[q - 1] == x);
            }
            if rb.contains(x) {
                let p = choose|p: int| 0 <= p < rb.len() && rb[p] == x;
                assert(b[p + 1] == x);
                assert(key_lt(b[0], x));
                lemma_key_lt_irrefl(x);
                assert(a.contains(x));
                let q = choose|q: int| 0 <= q < a.len() && a[q] == x;
                assert(q != 0);
                assert(ra[q - 1] == x);
            }
        }
        assert forall|i: int, j: int| 0 <= i < j < ra.len() implies key_lt(#[trigger] ra[i], #[trigger] ra[j]) by {
            assert(ra[i] == a[i + 1] && ra[j] == a[j + 1]);
        }
        assert forall|i: int, j: int| 0 <= i < j < rb.len() implies key_lt(#[trigger] rb[i], #[trigger] rb[j]) by {
            assert(rb[i] == b[i + 1] && rb[j] == b[j + 1]);
        }
        lemma_sorted_same_keys(ra, rb);
        assert(a =~= seq![a[0]] + ra);
        assert(b =~= seq![b[0]] + rb);
    }
}

/// The tally of a list of keys is unique.
pub proof fn lemma_tally_unique(kv: Seq<Seq<KeyPartV>>, r1: Seq<(usize, usize)>, r2: Seq<(usize, usize)>)
    requires
        tally_ok(kv, r1),
        tally_ok(kv, r2),
    ensures
        r1 == r2,
{
    let t1 = tallied_keys(kv, r1);
    let t2 = tallied_keys(kv, r2);
    assert forall|x: Seq<KeyPartV>| t1.contains(x) <==> t2.contains(x) by {
        if t1.contains(x) {
            let a = choose|a: int| 0 <= a < t1.len() && t1[a] == x;
            assert(t2.contains(kv[r1[a].0 as int]));
        }
        if t2.contains(x) {
            let a = choose|a: int| 0 <= a < t2.len() && t2[a] == x;
            assert(t1.contains(kv[r2[a].0 as int]));
        }
    }
    assert forall|i: int, j: int| 0 <= i < j < t1.len() implies key_lt(#[trigger] t1[i], #[trigger] t1[j]) by {
        assert(key_lt(kv[r1[i].0 as int], kv[r1[j].0 as int]));
    }
    assert forall|i: int, j: int| 0 <= i < j < t2.len() implies key_lt(#[trigger] t2[i], #[trigger] t2[j]) by {
        assert(key_lt(kv[r2[i].0 as int], kv[r2[j].0 as int]));
    }
    lemma_sorted_same_keys(t1, t2);
    assert forall|a: int| 0 <= a < r1.len() implies r1[a] == r2[a] by {
        assert(t1[a] == t2[a]);
        let p = r1[a].0 as int;
        let q = r2[a].0 as int;
        assert(kv[p] == kv[q]);
        if p < q {
            assert(kv[p] != kv[q]);
        }
        if q < p {
            assert(kv[q] != kv[p]);
        }
    }
    assert(r1 =~= r2);
}

/// Tally the keys: each distinct key once, smallest first, with the
/// position of its first occurrence and its number of occurrences.
pub fn tally(items: &Vec<SortKey>) -> (r: Vec<(usize, usize)>)
    ensures
        tally_ok(keys_view(items@), r@),
{
    let ghost kv = keys_view(items@);
    let mut distinct: Vec<SortKey> = Vec::new();
    let mut i: usize = 0;
    while i < items.len()
        invariant
            i <= items.len(),
            kv == keys_view(items@),
            strictly_sorted(keys_view(distinct@)),
            forall|x: Seq<KeyPartV>|
                #[trigger] keys_view(distinct@).contains(x) <==> exists|j: int| 0 <= j < i && kv[j] == x,
        decreases items.len() - i,
    {
        let ghost before = keys_view(distinct@);
        let k = copy_key(&items[i]);
        insert_key(&mut distinct, k);
        proof {
            assert(kv[i as int] == key_view(items@[i as int]));
            assert forall|x: Seq<KeyPartV>|
                #[trigger] keys_view(distinct@).contains(x) <==> exists|j: int| 0 <= j < i + 1 && kv[j] == x by {
                if keys_view(distinct@).contains(x) {
                    if x != kv[i as int] {
                        assert(before.contains(x));
                    }
                }
                if exists|j: int| 0 <= j < i + 1 && kv[j] == x {
                    let j = choose|j: int| 0 <= j < i + 1 && kv[j] == x;
                    if j < i {
                        assert(before.contains(x));
                    }
                }
            }
        }
        i = i + 1;
    }
    let ghost dv = keys_view(distinct@);
    let mut r: Vec<(usize, usize)> = Vec::new();
    let mut a: usize = 0;
    while a < distinct.len()
        invariant
            a <= distinct.len(),
            kv == keys_view(items@),
            dv == keys_view(distinct@),
            strictly_sorted(dv),
            forall|x: Seq<KeyPartV>| #[trigger] dv.contains(x) <==> exists|j: int| 0 <= j < kv.len() && kv[j] == x,
            r@.len() == a,
            forall|q: int|
                0 <= q < a ==> (#[trigger] r@[q]).0 < kv.len() && kv[r@[q].0 as int] == dv[q] && r@[q].1
                    == occurrences(kv, dv[q], kv.len()) && forall|i: int| 0 <= i < r@[q].0 ==> #[trigger] kv[i] != dv[q],
        decreases distinct.len() - a,
    {
        let d = &distinct[a];
        proof {
            assert(dv[a as int] == key_view(*d));
            assert(dv.contains(dv[a as int]));
        }
        let mut first: usize = 0;
        let mut found = false;
        let mut count: usize = 0;
        let mut j: usize = 0;
        while j < items.len()
            invariant
                j <= items.len(),
                kv == keys_view(items@),
                key_view(*d) == dv[a as int],
                exists|x: int| 0 <= x < kv.len() && kv[x] == dv[a as int],
                count == occurrences(kv, dv[a as int], j as nat),
                count <= j,
                found ==> first < j && kv[first as int] == dv[a as int],
                found ==> forall|i: int| 0 <= i < first ==> #[trigger] kv[i] != dv[a as int],
                !found ==> forall|i: int| 0 <= i < j ==> #[trigger] kv[i] != dv[a as int],
            decreases items.len() - j,
        {
            proof {
                assert(kv[j as int] == key_view(items@[j as int]));
            }
            if key_equal(&items[j], d) {
                if !found {
                    first = j;
                    found = true;
                }
                count = count + 1;
            }
            j = j + 1;
        }
        proof {
            if !found {
                let x = choose|x: int| 0 <= x < kv.len() && kv[x] == dv[a as int];
                assert(kv[x] != dv[a as int]);
            }
        }
        r.push((first, count));
        a = a + 1;
    }
    proof {
        assert forall|q: int| 0 <= q < r@.len() implies (#[trigger] r@[q]).0 < kv.len() && r@[q].1 == occurrences(kv, kv[r@[q].0 as int], kv.len())
            && forall|i: int| 0 <= i < r@[q].0 ==> #[trigger] kv[i] != kv[r@[q].0 as int] by {
            assert(kv[r@[q].0 as int] == dv[q]);
        }
        assert forall|x: int, y: int| 0 <= x < y < r@.len() implies key_lt(kv[(#[trigger] r@[x]).0 as int], kv[(#[trigger] r@[y]).0 as int]) by {
            assert(key_lt(dv[x], dv[y]));
        }
        assert forall|i: int| 0 <= i < kv.len() implies tallied_keys(kv, r@).contains(#[trigger] kv[i]) by {
            assert(dv.contains(kv[i]));
            let b = choose|b: int| 0 <= b < dv.len() && dv[b] == kv[i];
            assert(kv[r@[b].0 as int] == kv[i]);
            assert(tallied_keys(kv, r@)[b] == kv[i]);
        }
    }
    r
}

} // verus!
