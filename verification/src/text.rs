//! Small verified text helpers: decimal rendering and character-level string building.

use vstd::prelude::*;
use crate::seqs::lemma_take_succ_contains;

verus! {

/// The character for a decimal digit.
pub open spec fn digit_char(d: nat) -> char {
    if d == 0 { '0' }
    else if d == 1 { '1' }
    else if d == 2 { '2' }
    else if d == 3 { '3' }
    else if d == 4 { '4' }
    else if d == 5 { '5' }
    else if d == 6 { '6' }
    else if d == 7 { '7' }
    else if d == 8 { '8' }
    else { '9' }
}

/// Decimal rendering of a natural number, without leading zeros.
pub open spec fn decimal(n: nat) -> Seq<char>
    decreases n,
{
    if n < 10 {
        seq![digit_char(n)]
    } else {
        decimal(n / 10).push(digit_char(n % 10))
    }
}

/// Appends one character to a string (`String::push`).
#[verifier::external_body]
pub(crate) fn push_char(s: &mut String, c: char)
    ensures
        final(s)@ == old(s)@.push(c),
{
    s.push(c);
}

fn digit(d: u64) -> (c: char)
    requires
        d < 10,
    ensures
        c == digit_char(d as nat),
{
    if d == 0 { '0' }
    else if d == 1 { '1' }
    else if d == 2 { '2' }
    else if d == 3 { '3' }
    else if d == 4 { '4' }
    else if d == 5 { '5' }
    else if d == 6 { '6' }
    else if d == 7 { '7' }
    else if d == 8 { '8' }
    else { '9' }
}

/// Appends the decimal rendering of `n` to `out`.
pub fn push_decimal(out: &mut String, n: u64)
    ensures
        final(out)@ == old(out)@ + decimal(n as nat),
    decreases n,
{
    if n >= 10 {
        push_decimal(out, n / 10);
    }
    push_char(out, digit(n % 10));
    proof {
        if n < 10 {
            assert(decimal(n as nat) == seq![digit_char(n as nat)]);
        }
    }
    assert(final(out)@ =~= old(out)@ + decimal(n as nat)) by {
        if n >= 10 {
            assert(decimal(n as nat) == decimal((n / 10) as nat).push(digit_char((n % 10) as nat)));
        }
    }
}

/// The decimal rendering of `n` as a new string.
pub fn decimal_string(n: u64) -> (s: String)
    ensures
        s@ == decimal(n as nat),
{
    let mut s = String::new();
    push_decimal(&mut s, n);
    assert(s@ =~= decimal(n as nat));
    s
}

/// Appends a string slice to a string.
pub(crate) fn push_str(s: &mut String, t: &str)
    ensures
        final(s)@ == old(s)@ + t@,
{
    s.append(t);
}

/// The characters of a string slice, in order.
pub fn chars_of(s: &str) -> (v: Vec<char>)
    ensures
        v@ == s@,
{
    let mut v: Vec<char> = Vec::new();
    for c in it: s.chars()
        invariant
            it.seq() == s@,
            v@ == it.seq().take(it.index() as int),
    {
        proof {
            assert(it.seq().take(it.index() + 1) =~= it.seq().take(it.index() as int).push(c));
        }
        v.push(c);
    }
    assert(v@ =~= s@);
    v
}

/// Strict lexicographic order on texts, comparing characters by code point. For texts held
/// as UTF-8, this is the order of `str`'s `Ord` (byte-wise comparison of the encodings).
pub open spec fn text_lt(a: Seq<char>, b: Seq<char>) -> bool
    decreases a.len(),
{
    if a.len() == 0 {
        b.len() > 0
    } else if b.len() == 0 {
        false
    } else if a[0] != b[0] {
        (a[0] as int) < (b[0] as int)
    } else {
        text_lt(a.drop_first(), b.drop_first())
    }
}

/// Non-strict lexicographic order on texts.
pub open spec fn text_le(a: Seq<char>, b: Seq<char>) -> bool {
    !text_lt(b, a)
}

/// `text_lt` is irreflexive, asymmetric and total.
pub proof fn lemma_text_lt_total(a: Seq<char>, b: Seq<char>)
    ensures
        !text_lt(a, a),
        text_lt(a, b) ==> !text_lt(b, a),
        a != b ==> text_lt(a, b) || text_lt(b, a),
    decreases a.len() + b.len(),
{
    if a.len() > 0 && b.len() > 0 {
        lemma_text_lt_total(a.drop_first(), b.drop_first());
        if a[0] == b[0] && a != b {
            assert(a.drop_first() != b.drop_first()) by {
                if a.drop_first() == b.drop_first() {
                    assert(a =~= seq![a[0]] + a.drop_first());
                    assert(b =~= seq![b[0]] + b.drop_first());
                }
            }
        }
    }
    lemma_text_lt_irrefl(a);
    if a.len() == 0 && b.len() == 0 {
        assert(a =~= b);
    }
}

/// No text comes strictly before itself.
pub proof fn lemma_text_lt_irrefl(a: Seq<char>)
    ensures
        !text_lt(a, a),
    decreases a.len(),
{
    if a.len() > 0 {
        lemma_text_lt_irrefl(a.drop_first());
    }
}

/// `text_lt` is transitive.
pub proof fn lemma_text_lt_trans(a: Seq<char>, b: Seq<char>, c: Seq<char>)
    requires
        text_lt(a, b),
        text_lt(b, c),
    ensures
        text_lt(a, c),
    decreases a.len(),
{
    if a.len() > 0 && b.len() > 0 && c.len() > 0 && a[0] == b[0] && b[0] == c[0] {
        lemma_text_lt_trans(a.drop_first(), b.drop_first(), c.drop_first());
    }
}

/// Comparing texts after a common prefix of length `i`.
proof fn lemma_text_lt_skip(a: Seq<char>, b: Seq<char>, i: int)
    requires
        0 <= i <= a.len(),
        i <= b.len(),
        a.take(i) == b.take(i),
    ensures
        text_lt(a, b) == text_lt(a.skip(i), b.skip(i)),
    decreases i,
{
    if i > 0 {
        assert(a[0] == a.take(i)[0]);
        assert(b[0] == b.take(i)[0]);
        assert(a.drop_first().take(i - 1) =~= a.take(i).drop_first());
        assert(b.drop_first().take(i - 1) =~= b.take(i).drop_first());
        lemma_text_lt_skip(a.drop_first(), b.drop_first(), i - 1);
        assert(a.drop_first().skip(i - 1) =~= a.skip(i));
        assert(b.drop_first().skip(i - 1) =~= b.skip(i));
    } else {
        assert(a.skip(0) =~= a);
        assert(b.skip(0) =~= b);
    }
}

/// Whether `a` comes strictly before `b` in lexicographic order.
pub fn text_less(a: &Vec<char>, b: &Vec<char>) -> (r: bool)
    ensures
        r == text_lt(a@, b@),
{
    let mut i: usize = 0;
    while i < a.len() && i < b.len() && a[i] == b[i]
        invariant
            i <= a@.len(),
            i <= b@.len(),
            a@.take(i as int) == b@.take(i as int),
        decreases a@.len() - i,
    {
        assert(a@.take(i + 1) =~= a@.take(i as int).push(a@[i as int]));
        assert(b@.take(i + 1) =~= b@.take(i as int).push(b@[i as int]));
        i = i + 1;
    }
    proof {
        lemma_text_lt_skip(a@, b@, i as int);
    }
    if i == a.len() {
        i < b.len()
    } else if i == b.len() {
        false
    } else {
        a[i] < b[i]
    }
}

/// Whether two texts are equal.
pub fn text_equal(a: &Vec<char>, b: &Vec<char>) -> (r: bool)
    ensures
        r == (a@ == b@),
{
    proof {
        lemma_text_lt_total(a@, b@);
    }
    !text_less(a, b) && !text_less(b, a)
}

/// Sorts `ids` by their keys `keys` (`keys[i]` is the key of `ids[i]`) in lexicographic order;
/// entries with equal keys keep their relative order.
pub fn sort_by_text_key(ids: Vec<u64>, keys: Vec<Vec<char>>, Ghost(key): Ghost<spec_fn(u64) -> Seq<char>>) -> (r: Vec<u64>)
    requires
        ids@.len() == keys@.len(),
        ids@.no_duplicates(),
        forall|i: int| 0 <= i < ids@.len() ==> (#[trigger] keys@[i])@ == key(ids@[i]),
    ensures
        r@.no_duplicates(),
        forall|x: u64| #[trigger] r@.contains(x) <==> ids@.contains(x),
        forall|i: int, j: int| 0 <= i < j < r@.len() ==> text_le(key(#[trigger] r@[i]), key(#[trigger] r@[j])),
{
    let mut r_ids: Vec<u64> = Vec::new();
    let mut r_keys: Vec<Vec<char>> = Vec::new();
    let mut i: usize = 0;
    while i < ids.len()
        invariant
            i <= ids@.len(),
            ids@.len() == keys@.len(),
            ids@.no_duplicates(),
            forall|k: int| 0 <= k < ids@.len() ==> (#[trigger] keys@[k])@ == key(ids@[k]),
            r_ids@.len() == r_keys@.len(),
            r_ids@.no_duplicates(),
            forall|k: int| 0 <= k < r_ids@.len() ==> (#[trigger] r_keys@[k])@ == key(r_ids@[k]),
            forall|x: u64| #[trigger] r_ids@.contains(x) <==> ids@.take(i as int).contains(x),
            forall|a: int, b: int| 0 <= a < b < r_ids@.len() ==> text_le(key(#[trigger] r_ids@[a]), key(#[trigger] r_ids@[b])),
        decreases ids@.len() - i,
    {
        let id = ids[i];
        let k = keys[i].clone();
        assert(k@ == key(id));
        let mut p: usize = 0;
        while p < r_keys.len() && !text_less(&k, &r_keys[p])
            invariant
                p <= r_keys@.len(),
                r_ids@.len() == r_keys@.len(),
                forall|q: int| 0 <= q < r_ids@.len() ==> (#[trigger] r_keys@[q])@ == key(r_ids@[q]),
                forall|q: int| 0 <= q < p ==> text_le(key(#[trigger] r_ids@[q]), k@),
            decreases r_keys@.len() - p,
        {
            p = p + 1;
        }
        proof {
            if p < r_keys@.len() {
                assert(text_lt(k@, key(r_ids@[p as int])));
            }
            lemma_take_succ_contains(ids@, i as int, id);
            assert(!ids@.take(i as int).contains(id)) by {
                if ids@.take(i as int).contains(id) {
                    let q = choose|q: int| 0 <= q < i && ids@.take(i as int)[q] == id;
                    assert(ids@[q] == ids@[i as int]);
                }
            }
            crate::seqs::lemma_insert_contains(r_ids@, p as int, id);
        }
        let ghost old_ids = r_ids@;
        let ghost old_keys = r_keys@;
        r_ids.insert(p, id);
        r_keys.insert(p, k);
        proof {
            assert forall|q: int| 0 <= q < r_ids@.len() implies (#[trigger] r_keys@[q])@ == key(r_ids@[q]) by {
                if q < p {
                    assert(r_keys@[q] == old_keys[q]);
                } else if q > p {
                    assert(r_keys@[q] == old_keys[q - 1]);
                }
            }
            assert forall|x: u64| #[trigger] r_ids@.contains(x) <==> ids@.take(i + 1).contains(x) by {
                lemma_take_succ_contains(ids@, i as int, x);
            }
            assert forall|a: int, b: int| 0 <= a < b < r_ids@.len() implies text_le(key(#[trigger] r_ids@[a]), key(#[trigger] r_ids@[b])) by {
                if a < p && b < p {
                    assert(r_ids@[a] == old_ids[a] && r_ids@[b] == old_ids[b]);
                } else if a < p && b == p {
                    assert(r_ids@[a] == old_ids[a]);
                } else if a < p {
                    assert(r_ids@[a] == old_ids[a] && r_ids@[b] == old_ids[b - 1]);
                    assert(text_le(key(old_ids[a]), k@));
                    if p < old_ids.len() {
                        assert(text_lt(k@, key(old_ids[p as int])));
                        assert(text_le(key(old_ids[p as int]), key(old_ids[b - 1]))) by {
                            if p as int == b - 1 {
                                lemma_text_lt_irrefl(key(old_ids[p as int]));
                            } else {
                                assert(text_le(key(old_ids[p as int]), key(old_ids[b - 1])));
                            }
                        }
                        lemma_text_lt_total(key(old_ids[a]), k@);
                        lemma_text_lt_total(k@, key(old_ids[b - 1]));
                        if text_lt(key(old_ids[b - 1]), key(old_ids[a])) {
                            if key(old_ids[b - 1]) == key(old_ids[p as int]) {
                                lemma_text_lt_trans(key(old_ids[p as int]), key(old_ids[a]), k@);
                                lemma_text_lt_total(key(old_ids[p as int]), k@);
                            } else {
                                lemma_text_lt_total(key(old_ids[p as int]), key(old_ids[b - 1]));
                                lemma_text_lt_trans(k@, key(old_ids[p as int]), key(old_ids[b - 1]));
                                lemma_text_lt_trans(k@, key(old_ids[b - 1]), key(old_ids[a]));
                                lemma_text_lt_total(k@, key(old_ids[a]));
                            }
                        }
                    }
                } else if a == p {
                    assert(r_ids@[b] == old_ids[b - 1]);
                    assert(text_lt(k@, key(old_ids[p as int])));
                    lemma_text_lt_total(k@, key(old_ids[p as int]));
                    if b - 1 != p as int {
                        assert(text_le(key(old_ids[p as int]), key(old_ids[b - 1])));
                    }
                    if text_lt(key(old_ids[b - 1]), k@) {
                        lemma_text_lt_trans(key(old_ids[b - 1]), k@, key(old_ids[p as int]));
                        lemma_text_lt_total(key(old_ids[b - 1]), key(old_ids[p as int]));
                    }
                } else {
                    assert(r_ids@[a] == old_ids[a - 1] && r_ids@[b] == old_ids[b - 1]);
                }
            }
        }
        i = i + 1;
    }
    assert(ids@.take(i as int) =~= ids@);
    r_ids
}

} // verus!
