//! The self-describing binary encoding used by metadata files and tracker
//! responses: integers, byte strings, lists and dictionaries.

use vstd::prelude::*;

verus! {

broadcast use vstd::std_specs::vec::group_vec_axioms;

/// A decoded value. A dictionary's entries are sorted by key.
#[derive(Debug, PartialEq, Eq)]
pub enum BValue {
    Int(i64),
    Str(Vec<u8>),
    List(Vec<BValue>),
    Dict(Vec<(Vec<u8>, BValue)>),
}

#[derive(Debug, Clone, PartialEq, Eq, Structural)]
pub enum DecodeError {
    BadFormat,
    NumberTooLarge,
    EarlyEndOfInput,
}

/// The decimal digits of `n`, most significant first.
pub open spec fn digits(n: nat) -> Seq<u8>
    decreases n,
{
    if n < 10 {
        seq![(48 + n) as u8]
    } else {
        digits(n / 10).push((48 + n % 10) as u8)
    }
}

pub open spec fn enc_int(i: int) -> Seq<u8> {
    seq![105u8] + (if i < 0 {
        seq![45u8] + digits((-i) as nat)
    } else {
        digits(i as nat)
    }) + seq![101u8]
}

pub open spec fn enc_str(s: Seq<u8>) -> Seq<u8> {
    digits(s.len()) + seq![58u8] + s
}

/// The encoding of a value.
pub open spec fn enc(v: BValue) -> Seq<u8>
    decreases v, 0nat,
{
    match v {
        BValue::Int(i) => enc_int(i as int),
        BValue::Str(s) => enc_str(s@),
        BValue::List(l) => seq![108u8] + enc_list(l@, l@.len()) + seq![101u8],
        BValue::Dict(d) => seq![100u8] + enc_dict(d@, d@.len()) + seq![101u8],
    }
}

/// The encodings of the first `n` items, one after the other.
pub open spec fn enc_list(items: Seq<BValue>, n: nat) -> Seq<u8>
    decreases items, n,
{
    if n == 0 || n > items.len() {
        Seq::empty()
    } else {
        enc_list(items, (n - 1) as nat) + enc(items[n - 1])
    }
}

/// The encodings of the first `n` entries, each key then its value.
pub open spec fn enc_dict(entries: Seq<(Vec<u8>, BValue)>, n: nat) -> Seq<u8>
    decreases entries, n,
{
    if n == 0 || n > entries.len() {
        Seq::empty()
    } else {
        enc_dict(entries, (n - 1) as nat) + enc_str(entries[n - 1].0@) + enc(entries[n - 1].1)
    }
}

pub open spec fn is_digit(b: u8) -> bool {
    48 <= b <= 57
}

/// The number of decimal digits in a row from position `p`.
pub open spec fn digit_run(s: Seq<u8>, p: int) -> nat
    decreases s.len() - p,
{
    if p < 0 || p >= s.len() || !is_digit(s[p]) {
        0
    } else {
        1 + digit_run(s, p + 1)
    }
}

/// The number that decimal digits denote.
pub open spec fn digits_value(s: Seq<u8>) -> nat
    decreases s.len(),
{
    if s.len() == 0 {
        0
    } else {
        digits_value(s.drop_last()) * 10 + (s.last() - 48) as nat
    }
}

/// `t` stands in `s` from position `p`.
pub open spec fn starts_at(s: Seq<u8>, p: int, t: Seq<u8>) -> bool {
    0 <= p && p + t.len() <= s.len() && s.subrange(p, p + t.len()) == t
}

pub proof fn lemma_digits(n: nat)
    ensures
        digits(n).len() >= 1,
        digits_value(digits(n)) == n,
        forall|j: int| 0 <= j < digits(n).len() ==> is_digit(#[trigger] digits(n)[j]),
    decreases n,
{
    if n >= 10 {
        lemma_digits(n / 10);
        assert(digits(n).drop_last() =~= digits(n / 10));
        assert(digits(n).last() == (48 + n % 10) as u8);
        assert(((48 + n % 10) as u8) as int == 48 + n % 10);
        assert((n / 10) * 10 + n % 10 == n);
        assert(digits_value(digits(n)) == digits_value(digits(n).drop_last()) * 10 + (digits(
            n,
        ).last() - 48) as nat);
        let d = digits(n);
        assert forall|j: int| 0 <= j < d.len() implies is_digit(#[trigger] d[j]) by {
            if j < d.len() - 1 {
                assert(d[j] == digits(n / 10)[j]);
            }
        }
    } else {
        assert(digits(n).drop_last() =~= Seq::<u8>::empty());
        assert(digits(n).last() == (48 + n) as u8);
        assert(digits_value(digits(n)) == digits_value(digits(n).drop_last()) * 10 + (digits(
            n,
        ).last() - 48) as nat);
    }
}

proof fn lemma_digit_run_exact(s: Seq<u8>, p: int, t: Seq<u8>)
    requires
        starts_at(s, p, t),
        p + t.len() < s.len(),
        !is_digit(s[p + t.len()]),
        forall|j: int| 0 <= j < t.len() ==> is_digit(#[trigger] t[j]),
    ensures
        digit_run(s, p) == t.len(),
    decreases t.len(),
{
    if t.len() > 0 {
        assert(s[p] == t[0]);
        let t2 = t.drop_first();
        assert(s.subrange(p + 1, p + 1 + t2.len()) =~= t2);
        assert forall|j: int| 0 <= j < t2.len() implies is_digit(#[trigger] t2[j]) by {
            assert(t2[j] == t[j + 1]);
        }
        lemma_digit_run_exact(s, p + 1, t2);
    }
}

proof fn lemma_digits_value_grows(s: Seq<u8>, a: int, b: int)
    requires
        0 <= a <= b <= s.len(),
    ensures
        digits_value(s.subrange(0, a)) <= digits_value(s.subrange(0, b)),
    decreases b - a,
{
    if a < b {
        lemma_digits_value_grows(s, a, b - 1);
        assert(s.subrange(0, b).drop_last() =~= s.subrange(0, b - 1));
    }
}

proof fn lemma_digits_value_push(s: Seq<u8>, p: int, q: int)
    requires
        0 <= p <= q < s.len(),
    ensures
        digits_value(s.subrange(p, q + 1)) == digits_value(s.subrange(p, q)) * 10 + (s[q] - 48) as nat,
{
    assert(s.subrange(p, q + 1).drop_last() =~= s.subrange(p, q));
}

proof fn lemma_int_encoding(s: Seq<u8>, p: int, i: i64)
    requires
        i != i64::MIN,
        starts_at(s, p, enc_int(i as int)),
    ensures
        s[p] == 105,
        (p + 1 < s.len() && s[p + 1] == 45) == (i < 0),
        ({
            let d0 = if i < 0 {
                p + 2
            } else {
                p + 1
            };
            let n = if i < 0 {
                -i
            } else {
                i as int
            };
            let k = digit_run(s, d0);
            &&& k == digits(n as nat).len()
            &&& d0 + k < s.len()
            &&& s[d0 + k] == 101
            &&& digits_value(s.subrange(d0, d0 + k)) == n
            &&& p + enc_int(i as int).len() == d0 + k + 1
        }),
{
    let e = enc_int(i as int);
    let n: nat = if i < 0 {
        (-i) as nat
    } else {
        i as nat
    };
    let d0 = if i < 0 {
        p + 2
    } else {
        p + 1
    };
    let ds = digits(n);
    lemma_digits(n);
    assert(s[p] == e[0]);
    assert(s[p + 1] == e[1]);
    if i >= 0 {
        assert(e[1] == ds[0]);
    }
    assert(s.subrange(d0, d0 + ds.len()) =~= ds) by {
        assert forall|j: int| 0 <= j < ds.len() implies s.subrange(d0, d0 + ds.len())[j] == ds[j] by {
            assert(s[d0 + j] == e[d0 - p + j]);
        }
    }
    assert(s[d0 + ds.len()] == e[e.len() - 1]);
    lemma_digit_run_exact(s, d0, ds);
}

proof fn lemma_str_encoding(s: Seq<u8>, p: int, b: Seq<u8>)
    requires
        starts_at(s, p, enc_str(b)),
    ensures
        ({
            let k = digit_run(s, p);
            &&& k == digits(b.len()).len()
            &&& p + k < s.len()
            &&& s[p + k] == 58
            &&& digits_value(s.subrange(p, p + k)) == b.len()
            &&& s.subrange(p + k + 1, p + k + 1 + b.len()) == b
            &&& p + enc_str(b).len() == p + k + 1 + b.len()
        }),
{
    let e = enc_str(b);
    let ds = digits(b.len());
    lemma_digits(b.len());
    assert(s.subrange(p, p + ds.len()) =~= ds) by {
        assert forall|j: int| 0 <= j < ds.len() implies s.subrange(p, p + ds.len())[j] == ds[j] by {
            assert(s[p + j] == e[j]);
        }
    }
    assert(s[p + ds.len()] == e[ds.len() as int]);
    lemma_digit_run_exact(s, p, ds);
    let q = p + ds.len() + 1;
    assert(s.subrange(q, q + b.len()) =~= b) by {
        assert forall|j: int| 0 <= j < b.len() implies s.subrange(q, q + b.len())[j] == b[j] by {
            assert(s[q + j] == e[ds.len() + 1 + j]);
        }
    }
}

/// Byte strings in lexicographic order: `a` sorts strictly before `b`.
pub open spec fn lex_lt(a: Seq<u8>, b: Seq<u8>) -> bool
    decreases a.len(),
{
    if b.len() == 0 {
        false
    } else if a.len() == 0 {
        true
    } else if a[0] != b[0] {
        a[0] < b[0]
    } else {
        lex_lt(a.drop_first(), b.drop_first())
    }
}

/// Dictionary entries whose keys strictly increase.
pub open spec fn keys_sorted(d: Seq<(Vec<u8>, BValue)>) -> bool {
    forall|i: int| 0 <= i < d.len() - 1 ==> lex_lt(#[trigger] d[i].0@, d[i + 1].0@)
}

/// Every dictionary in the value, at any depth, has strictly increasing keys.
pub open spec fn value_wf(v: BValue) -> bool
    decreases v,
{
    match v {
        BValue::List(l) => forall|i: int| 0 <= i < l@.len() ==> value_wf(#[trigger] l@[i]),
        BValue::Dict(d) => keys_sorted(d@) && forall|i: int|
            0 <= i < d@.len() ==> value_wf(#[trigger] d@[i].1),
        _ => true,
    }
}

/// The first entries of `d`, as many as `got` holds, have the keys and the
/// same values as `got`.
pub open spec fn entries_match(d: Seq<(Vec<u8>, BValue)>, got: Seq<(Vec<u8>, BValue)>) -> bool {
    forall|j: int|
        0 <= j < got.len() ==> #[trigger] d[j].0@ == got[j].0@ && same_value(d[j].1, got[j].1)
}

/// A value that decoding its encoding gives back: every dictionary's keys
/// strictly increase, and no integer is `i64::MIN`.
pub open spec fn canonical(v: BValue) -> bool
    decreases v,
{
    match v {
        BValue::Int(i) => i != i64::MIN,
        BValue::Str(_) => true,
        BValue::List(l) => forall|i: int| 0 <= i < l@.len() ==> canonical(#[trigger] l@[i]),
        BValue::Dict(d) => keys_sorted(d@) && forall|i: int|
            0 <= i < d@.len() ==> canonical(#[trigger] d@[i].1),
    }
}

/// The same value: equal integers, equal bytes, the same items and entries
/// in the same order.
pub open spec fn same_value(a: BValue, b: BValue) -> bool
    decreases a,
{
    match a {
        BValue::Int(x) => b == BValue::Int(x),
        BValue::Str(x) => b is Str && x@ == b->Str_0@,
        BValue::List(x) => b is List && x@.len() == b->List_0@.len() && forall|i: int|
            0 <= i < x@.len() ==> same_value(#[trigger] x@[i], b->List_0@[i]),
        BValue::Dict(x) => b is Dict && x@.len() == b->Dict_0@.len() && forall|i: int|
            0 <= i < x@.len() ==> #[trigger] x@[i].0@ == b->Dict_0@[i].0@ && same_value(
                x@[i].1,
                b->Dict_0@[i].1,
            ),
    }
}

proof fn lemma_enc_first(v: BValue)
    ensures
        enc(v).len() >= 1,
        starts_value(enc(v)[0]),
{
    match v {
        BValue::Str(b) => {
            lemma_digits(b@.len());
            assert(enc(v)[0] == digits(b@.len())[0]);
        },
        BValue::Int(i) => {},
        BValue::List(l) => {},
        BValue::Dict(d) => {},
    }
}

proof fn lemma_enc_list_prefix(items: Seq<BValue>, k: nat, n: nat)
    requires
        k <= n <= items.len(),
    ensures
        enc_list(items, k).len() <= enc_list(items, n).len(),
        enc_list(items, n).subrange(0, enc_list(items, k).len() as int) == enc_list(items, k),
    decreases n - k,
{
    if k < n {
        lemma_enc_list_prefix(items, k, (n - 1) as nat);
        let a = enc_list(items, (n - 1) as nat);
        assert(enc_list(items, n) == a + enc(items[n - 1]));
        assert(enc_list(items, n).subrange(0, enc_list(items, k).len() as int) =~= a.subrange(
            0,
            enc_list(items, k).len() as int,
        ));
    } else {
        assert(enc_list(items, n).subrange(0, enc_list(items, n).len() as int) =~= enc_list(items, n));
    }
}

proof fn lemma_enc_dict_prefix(entries: Seq<(Vec<u8>, BValue)>, k: nat, n: nat)
    requires
        k <= n <= entries.len(),
    ensures
        enc_dict(entries, k).len() <= enc_dict(entries, n).len(),
        enc_dict(entries, n).subrange(0, enc_dict(entries, k).len() as int) == enc_dict(entries, k),
    decreases n - k,
{
    if k < n {
        lemma_enc_dict_prefix(entries, k, (n - 1) as nat);
        let a = enc_dict(entries, (n - 1) as nat);
        assert(enc_dict(entries, n) == a + enc_str(entries[n - 1].0@) + enc(entries[n - 1].1));
        assert(enc_dict(entries, n).subrange(0, enc_dict(entries, k).len() as int) =~= a.subrange(
            0,
            enc_dict(entries, k).len() as int,
        ));
    } else {
        assert(enc_dict(entries, n).subrange(0, enc_dict(entries, n).len() as int) =~= enc_dict(
            entries,
            n,
        ));
    }
}

proof fn lemma_starts_at_inner(s: Seq<u8>, p: int, whole: Seq<u8>, off: int, part: Seq<u8>)
    requires
        starts_at(s, p, whole),
        0 <= off,
        off + part.len() <= whole.len(),
        whole.subrange(off, off + part.len()) == part,
    ensures
        starts_at(s, p + off, part),
{
    assert(s.subrange(p + off, p + off + part.len()) =~= whole.subrange(off, off + part.len()));
}

proof fn lemma_lex_trans(a: Seq<u8>, b: Seq<u8>, c: Seq<u8>)
    requires
        lex_lt(a, b),
        lex_lt(b, c),
    ensures
        lex_lt(a, c),
    decreases a.len(),
{
    if a.len() > 0 && b.len() > 0 && c.len() > 0 && a[0] == b[0] && b[0] == c[0] {
        lemma_lex_trans(a.drop_first(), b.drop_first(), c.drop_first());
    }
}

proof fn lemma_sorted_lt(d: Seq<(Vec<u8>, BValue)>, i: int, j: int)
    requires
        keys_sorted(d),
        0 <= i < j < d.len(),
    ensures
        lex_lt(d[i].0@, d[j].0@),
    decreases j - i,
{
    if j > i + 1 {
        lemma_sorted_lt(d, i, j - 1);
        assert(lex_lt(d[j - 1].0@, d[j].0@));
        lemma_lex_trans(d[i].0@, d[j - 1].0@, d[j].0@);
    }
}

proof fn lemma_dict_step(s: Seq<u8>, p: int, q: int, k: nat, v: BValue)
    requires
        v is Dict,
        canonical(v),
        starts_at(s, p, enc(v)),
        k <= v->Dict_0@.len(),
        q == p + 1 + enc_dict(v->Dict_0@, k).len(),
    ensures
        ({
            let d = v->Dict_0@;
            &&& (k < d.len() ==> starts_at(s, q, enc_str(d[k as int].0@)) && starts_at(
                s,
                q + enc_str(d[k as int].0@).len(),
                enc(d[k as int].1),
            ) && canonical(d[k as int].1) && q < s.len() && s[q] != 101)
            &&& (k == d.len() ==> q < s.len() && s[q] == 101)
        }),
{
    let d = v->Dict_0@;
    let e = enc(v);
    lemma_enc_dict_prefix(d, k, d.len());
    if k < d.len() {
        lemma_enc_dict_prefix(d, (k + 1) as nat, d.len());
        let off: int = 1 + enc_dict(d, k).len() as int;
        let ks = enc_str(d[k as int].0@);
        let vs = enc(d[k as int].1);
        let part = ks + vs;
        assert(enc_dict(d, (k + 1) as nat) == enc_dict(d, k) + ks + vs);
        assert(e.subrange(off, off + part.len()) =~= part) by {
            assert forall|j: int| 0 <= j < part.len() implies e.subrange(off, off + part.len())[j] == part[j] by {
                assert(e[off + j] == enc_dict(d, d.len())[off - 1 + j]);
                assert(enc_dict(d, d.len())[off - 1 + j] == enc_dict(d, (k + 1) as nat)[off - 1 + j]);
            }
        }
        lemma_starts_at_inner(s, p, e, off, part);
        assert(part.subrange(0, ks.len() as int) =~= ks);
        assert(part.subrange(ks.len() as int, ks.len() + vs.len() as int) =~= vs);
        lemma_starts_at_inner(s, q, part, 0, ks);
        lemma_starts_at_inner(s, q, part, ks.len() as int, vs);
        lemma_digits(d[k as int].0@.len());
        assert(s[q] == ks[0]);
        assert(ks[0] == digits(d[k as int].0@.len())[0]);
    } else {
        assert(s[q] == e[1 + enc_dict(d, k).len() as int]);
    }
}

proof fn lemma_dict_done(v: BValue, w: BValue)
    requires
        v is Dict,
        w is Dict,
        w->Dict_0@.len() == v->Dict_0@.len(),
        entries_match(v->Dict_0@, w->Dict_0@),
    ensures
        same_value(v, w),
{
    let x = v->Dict_0@;
    let y = w->Dict_0@;
    assert forall|i: int| 0 <= i < x.len() implies #[trigger] x[i].0@ == y[i].0@ && same_value(
        x[i].1,
        y[i].1,
    ) by {
        assert(x[i].0@ == y[i].0@);
    }
}

proof fn lemma_dict_extend(
    d: Seq<(Vec<u8>, BValue)>,
    before: Seq<(Vec<u8>, BValue)>,
    after: Seq<(Vec<u8>, BValue)>,
    key: Vec<u8>,
    value: BValue,
    k: int,
)
    requires
        entries_match(d, before),
        before.len() == k,
        0 <= k < d.len(),
        after == before.push((key, value)),
        key@ == d[k].0@,
        same_value(d[k].1, value),
    ensures
        entries_match(d, after),
{
    assert forall|j: int| 0 <= j < after.len() implies #[trigger] d[j].0@ == after[j].0@ && same_value(
        d[j].1,
        after[j].1,
    ) by {
        if j < k {
            assert(after[j] == before[j]);
            assert(d[j].0@ == before[j].0@);
            assert(same_value(d[j].1, before[j].1));
        } else {
            assert(j == k);
            assert(after[j] == (key, value));
            assert(d[j].0@ == after[j].0@);
            assert(same_value(d[j].1, after[j].1));
        }
    }
}

proof fn lemma_lex_total(a: Seq<u8>, b: Seq<u8>)
    ensures
        a != b && !lex_lt(a, b) ==> lex_lt(b, a),
        !(lex_lt(a, b) && lex_lt(b, a)),
        !lex_lt(a, a),
    decreases a.len(),
{
    if a.len() > 0 && b.len() > 0 && a[0] == b[0] {
        lemma_lex_total(a.drop_first(), b.drop_first());
        if a.drop_first() == b.drop_first() {
            assert(a =~= seq![a[0]] + a.drop_first());
            assert(b =~= seq![b[0]] + b.drop_first());
        }
    }
    if a.len() > 0 {
        lemma_lex_total(a.drop_first(), a.drop_first());
    }
    if a.len() == 0 && b.len() == 0 {
        assert(a =~= b);
    }
}

/// Whether key `a` sorts strictly before key `b`.
pub fn key_less(a: &[u8], b: &[u8]) -> (r: bool)
    ensures
        r == lex_lt(a@, b@),
{
    let mut i: usize = 0;
    assert(a@.subrange(0, a@.len() as int) =~= a@);
    assert(b@.subrange(0, b@.len() as int) =~= b@);
    while i < a.len() && i < b.len() && a[i] == b[i]
        invariant
            i <= a@.len(),
            i <= b@.len(),
            lex_lt(a@, b@) == lex_lt(a@.subrange(i as int, a@.len() as int), b@.subrange(
                i as int,
                b@.len() as int,
            )),
        decreases a@.len() - i,
    {
        let ghost sa = a@.subrange(i as int, a@.len() as int);
        let ghost sb = b@.subrange(i as int, b@.len() as int);
        assert(sa.drop_first() =~= a@.subrange(i + 1, a@.len() as int));
        assert(sb.drop_first() =~= b@.subrange(i + 1, b@.len() as int));
        i = i + 1;
    }
    if i == b.len() {
        false
    } else if i == a.len() {
        true
    } else {
        a[i] < b[i]
    }
}

/// Inserts an entry into sorted dictionary entries; an entry with an equal
/// key is replaced.
pub fn dict_insert(d: &mut Vec<(Vec<u8>, BValue)>, key: Vec<u8>, value: BValue)
    requires
        keys_sorted(old(d)@),
    ensures
        keys_sorted(final(d)@),
        exists|i: int|
            0 <= i <= old(d)@.len() && (forall|j: int| 0 <= j < i ==> lex_lt(
                #[trigger] old(d)@[j].0@,
                key@,
            )) && final(d)@[i] == (key, value) && ({
                ||| (i < old(d)@.len() && old(d)@[i].0@ == key@ && final(d)@ == old(d)@.update(
                    i,
                    (key, value),
                ))
                ||| ((i == old(d)@.len() || lex_lt(key@, old(d)@[i].0@)) && final(d)@
                    == old(d)@.insert(i, (key, value)))
            }),
        old(d)@.len() == 0 || lex_lt(old(d)@.last().0@, key@) ==> final(d)@ == old(d)@.push(
            (key, value),
        ),
{
    let mut i: usize = 0;
    while i < d.len() && key_less(d[i].0.as_slice(), key.as_slice())
        invariant
            i <= d@.len(),
            d@ == old(d)@,
            forall|j: int| 0 <= j < i ==> lex_lt(#[trigger] old(d)@[j].0@, key@),
        decreases d@.len() - i,
    {
        i = i + 1;
    }
    let ghost old_d = d@;
    let ghost k = i as int;
    proof {
        if i < old_d.len() && lex_lt(old_d.last().0@, key@) {
            if i < old_d.len() - 1 {
                lemma_sorted_lt(old_d, i as int, old_d.len() - 1);
                lemma_lex_trans(old_d[i as int].0@, old_d.last().0@, key@);
            }
        }
    }
    let ghost entry = (key, value);
    if i < d.len() && d[i].0.len() == key.len() && !key_less(d[i].0.as_slice(), key.as_slice())
        && !key_less(key.as_slice(), d[i].0.as_slice()) {
        proof {
            lemma_lex_total(old_d[i as int].0@, key@);
        }
        d.set(i, (key, value));
        assert(d@ == old_d.update(k, entry));
        assert forall|j: int| 0 <= j < d@.len() - 1 implies lex_lt(
            #[trigger] d@[j].0@,
            d@[j + 1].0@,
        ) by {
            assert(old_d[j].0@ == d@[j].0@);
            assert(old_d[j + 1].0@ == d@[j + 1].0@);
        }
    } else {
        proof {
            if i < old_d.len() {
                lemma_lex_total(old_d[i as int].0@, key@);
            }
        }
        d.insert(i, (key, value));
        assert(d@ == old_d.insert(k, entry));
        assert forall|j: int| 0 <= j < d@.len() - 1 implies lex_lt(
            #[trigger] d@[j].0@,
            d@[j + 1].0@,
        ) by {
            if j < i - 1 {
                assert(d@[j] == old_d[j] && d@[j + 1] == old_d[j + 1]);
            } else if j == i - 1 {
                assert(d@[j] == old_d[j]);
            } else if j == i {
                assert(d@[j + 1] == old_d[j]);
            } else {
                assert(d@[j] == old_d[j - 1] && d@[j + 1] == old_d[j]);
            }
        }
    }
    assert(d@[k] == entry);
    proof {
        if k == old_d.len() {
            assert(d@ =~= old_d.push(entry));
        }
    }
}

/// Decodes the value at the start of `input`; bytes after it are ignored.
/// Every dictionary of the result has strictly increasing keys: entries are
/// sorted, and of two entries with one key the later is kept. Where the
/// input starts with the encoding of a canonical value, that value comes
/// back.
pub fn decode(input: &[u8]) -> (r: Result<BValue, DecodeError>)
    ensures
        r matches Ok(v) ==> value_wf(v),
        forall|v: BValue|
            canonical(v) && #[trigger] starts_at(input@, 0, enc(v)) ==> r is Ok && same_value(
                v,
                r->Ok_0,
            ),
        input@.len() == 0 ==> r == Err::<BValue, DecodeError>(DecodeError::EarlyEndOfInput),
        input@.len() > 0 && !starts_value(input@[0]) ==> r == Err::<BValue, DecodeError>(
            DecodeError::BadFormat,
        ),
{
    proof {
        assert(input@.len() == input.len());
    }
    let mut decoder = Decoder::new(input);
    decoder.read()
}

/// Round trip: the encoding of a value, followed by any bytes, starts with
/// that encoding, so decoding it gives back a canonical value.
pub proof fn lemma_decode_encoding(v: BValue, rest: Seq<u8>)
    ensures
        starts_at(enc(v) + rest, 0, enc(v)),
{
    assert((enc(v) + rest).subrange(0, enc(v).len() as int) =~= enc(v));
}

/// The first byte of an encoded value: `i`, `l`, `d` or a decimal digit.
pub open spec fn starts_value(b: u8) -> bool {
    b == 105 || b == 108 || b == 100 || (48 <= b <= 57)
}

struct Decoder<'a> {
    input: &'a [u8],
    position: usize,
}

impl<'a> Decoder<'a> {
    spec fn wf(&self) -> bool {
        &&& self.position <= self.input@.len()
        &&& self.input@.len() <= usize::MAX
    }

    /// `self` read on in the same input.
    spec fn moved_on(&self, before: &Decoder<'a>) -> bool {
        &&& self.input@ == before.input@
        &&& before.position <= self.position <= self.input@.len()
        &&& self.input@.len() <= usize::MAX
    }

    fn new(input: &'a [u8]) -> (r: Decoder<'a>)
        ensures
            r.input@ == input@,
            r.position == 0,
    {
        Decoder { input: input, position: 0 }
    }

    fn peek(&self) -> (r: Option<u8>)
        requires
            self.wf(),
        ensures
            self.position < self.input@.len() ==> r == Some(self.input@[self.position as int]),
            self.position == self.input@.len() ==> r is None,
    {
        if self.position < self.input.len() {
            Some(self.input[self.position])
        } else {
            None
        }
    }

    fn advance(&mut self)
        requires
            old(self).position < old(self).input@.len(),
        ensures
            final(self).input@ == old(self).input@,
            final(self).position == old(self).position + 1,
    {
        proof {
            assert(self.input@.len() == self.input.len());
        }
        self.position = self.position + 1;
    }

    /// Consumes `byte` if it comes next.
    fn match_byte(&mut self, byte: u8) -> (r: bool)
        requires
            old(self).wf(),
        ensures
            final(self).input@ == old(self).input@,
            r == (old(self).position < old(self).input@.len() && old(self).input@[old(
                self,
            ).position as int] == byte),
            final(self).position == old(self).position + if r {
                1int
            } else {
                0int
            },
    {
        match self.peek() {
            Some(b) => {
                if b == byte {
                    self.advance();
                    true
                } else {
                    false
                }
            },
            None => false,
        }
    }

    fn read(&mut self) -> (r: Result<BValue, DecodeError>)
        requires
            old(self).wf(),
        ensures
            final(self).moved_on(old(self)),
            r matches Ok(v) ==> value_wf(v) && final(self).position > old(self).position,
            old(self).position == old(self).input@.len() ==> r == Err::<BValue, DecodeError>(
                DecodeError::EarlyEndOfInput,
            ),
            old(self).position < old(self).input@.len() && !starts_value(
                old(self).input@[old(self).position as int],
            ) ==> r == Err::<BValue, DecodeError>(DecodeError::BadFormat),
            forall|v: BValue|
                canonical(v) && #[trigger] starts_at(
                    old(self).input@,
                    old(self).position as int,
                    enc(v),
                ) ==> r is Ok && same_value(v, r->Ok_0) && final(self).position == old(
                    self,
                ).position + enc(v).len(),
        decreases old(self).input@.len() - old(self).position, 1nat,
    {
        let ghost s = self.input@;
        let ghost p = self.position as int;
        let r = match self.peek() {
            Some(b) => {
                if b == 105 {
                    self.read_int()
                } else if b == 108 {
                    self.read_list()
                } else if b == 100 {
                    self.read_dict()
                } else if 48 <= b && b <= 57 {
                    match self.read_string() {
                        Ok(bytes) => Ok(BValue::Str(bytes)),
                        Err(e) => Err(e),
                    }
                } else {
                    Err(DecodeError::BadFormat)
                }
            },
            None => Err(DecodeError::EarlyEndOfInput),
        };
        proof {
            assert forall|v: BValue| canonical(v) && #[trigger] starts_at(s, p, enc(v)) implies r is Ok
                && same_value(v, r->Ok_0) && self.position == p + enc(v).len() by {
                lemma_enc_first(v);
                assert(s[p] == enc(v)[0]);
                match v {
                    BValue::Int(i) => {
                        assert(starts_at(s, p, enc_int(i as int)));
                    },
                    BValue::Str(bytes) => {
                        assert(starts_at(s, p, enc_str(bytes@)));
                        lemma_digits(bytes@.len());
                        assert(enc(v)[0] == digits(bytes@.len())[0]);
                    },
                    BValue::List(l) => {},
                    BValue::Dict(d) => {},
                }
            }
        }
        r
    }

    /// Reads decimal digits up to the byte `ends_with`, which is consumed:
    /// at least one digit, and a value that fits in a `u64`.
    fn read_raw_number(&mut self, ends_with: u8) -> (r: Result<u64, DecodeError>)
        requires
            old(self).wf(),
            !is_digit(ends_with),
        ensures
            final(self).moved_on(old(self)),
            ({
                let s = old(self).input@;
                let p = old(self).position as int;
                let k = digit_run(s, p);
                let ok = k > 0 && p + k < s.len() && s[p + k] == ends_with && digits_value(
                    s.subrange(p, p + k),
                ) <= u64::MAX;
                &&& ok ==> r == Ok::<u64, DecodeError>(digits_value(s.subrange(p, p + k)) as u64)
                    && final(self).position == p + k + 1
                &&& !ok ==> r is Err
            }),
    {
        let ghost s = self.input@;
        let ghost p = self.position as int;
        let mut value: u64 = 0;
        let mut bytes_consumed: usize = 0;
        loop
            invariant
                self.moved_on(old(self)),
                s == self.input@,
                p == old(self).position,
                !is_digit(ends_with),
                self.position == p + bytes_consumed,
                value == digits_value(s.subrange(p, self.position as int)),
                digit_run(s, p) == bytes_consumed + digit_run(s, self.position as int),
            decreases self.input@.len() - self.position,
        {
            let ghost q = self.position as int;
            match self.peek() {
                Some(byte) => {
                    if byte == ends_with {
                        if bytes_consumed > 0 {
                            self.advance();
                            return Ok(value);
                        } else {
                            return Err(DecodeError::BadFormat);
                        }
                    } else if 48 <= byte && byte <= 57 {
                        proof {
                            lemma_digits_value_push(s, p, q);
                        }
                        self.advance();
                        bytes_consumed = bytes_consumed + 1;
                        let digit = (byte - 48) as u64;
                        if value > 1844674407370955161 || (value == 1844674407370955161 && digit
                            > 5) {
                            proof {
                                let k = digit_run(s, p);
                                if k > 0 && p + k < s.len() {
                                    let run = s.subrange(p, p + k);
                                    assert(s.subrange(p, q + 1) =~= run.subrange(0, q + 1 - p));
                                    lemma_digits_value_grows(run, q + 1 - p, k as int);
                                    assert(run.subrange(0, k as int) =~= run);
                                }
                            }
                            return Err(DecodeError::NumberTooLarge);
                        }
                        value = value * 10 + digit;
                    } else {
                        return Err(DecodeError::BadFormat);
                    }
                },
                None => {
                    return Err(DecodeError::BadFormat);
                },
            }
        }
    }

    fn read_int(&mut self) -> (r: Result<BValue, DecodeError>)
        requires
            old(self).wf(),
            old(self).position < old(self).input@.len(),
        ensures
            final(self).moved_on(old(self)),
            r is Ok ==> final(self).position > old(self).position,
            r matches Ok(v) ==> v is Int,
            forall|i: i64|
                i != i64::MIN && #[trigger] starts_at(
                    old(self).input@,
                    old(self).position as int,
                    enc_int(i as int),
                ) ==> r == Ok::<BValue, DecodeError>(BValue::Int(i)) && final(self).position
                    == old(self).position + enc_int(i as int).len(),
    {
        let ghost s = self.input@;
        let ghost p = self.position as int;
        self.advance();
        let negative = self.match_byte(45);
        let ghost d0 = self.position as int;
        let r = match self.read_raw_number(101) {
            Ok(num) => {
                if num > 9223372036854775807 {
                    Err(DecodeError::NumberTooLarge)
                } else if negative {
                    Ok(BValue::Int(-(num as i64)))
                } else {
                    Ok(BValue::Int(num as i64))
                }
            },
            Err(e) => Err(e),
        };
        proof {
            assert forall|i: i64|
                i != i64::MIN && #[trigger] starts_at(s, p, enc_int(i as int)) implies r
                == Ok::<BValue, DecodeError>(BValue::Int(i)) && self.position == p + enc_int(
                i as int,
            ).len() by {
                lemma_int_encoding(s, p, i);
            }
        }
        r
    }

    fn read_bytes(&mut self, amount: usize) -> (r: Result<Vec<u8>, DecodeError>)
        requires
            old(self).wf(),
        ensures
            final(self).moved_on(old(self)),
            amount <= old(self).input@.len() - old(self).position ==> r is Ok,
            r matches Ok(b) ==> b@ == old(self).input@.subrange(
                old(self).position as int,
                final(self).position as int,
            ) && final(self).position == old(self).position + amount,
    {
        if amount <= self.input.len() - self.position {
            let new_position = self.position + amount;
            let mut bytes: Vec<u8> = Vec::new();
            let mut i: usize = self.position;
            while i < new_position
                invariant
                    self.wf(),
                    self.position <= i <= new_position <= self.input@.len(),
                    bytes@ == self.input@.subrange(self.position as int, i as int),
                decreases new_position - i,
            {
                bytes.push(self.input[i]);
                i = i + 1;
                assert(bytes@ =~= self.input@.subrange(self.position as int, i as int));
            }
            self.position = new_position;
            Ok(bytes)
        } else {
            Err(DecodeError::EarlyEndOfInput)
        }
    }

    fn read_string(&mut self) -> (r: Result<Vec<u8>, DecodeError>)
        requires
            old(self).wf(),
        ensures
            final(self).moved_on(old(self)),
            r is Ok ==> final(self).position > old(self).position,
            forall|b: Seq<u8>|
                #[trigger] starts_at(old(self).input@, old(self).position as int, enc_str(b))
                    ==> r is Ok && r->Ok_0@ == b && final(self).position == old(self).position
                    + enc_str(b).len(),
    {
        let ghost s = self.input@;
        let ghost p = self.position as int;
        let r = match self.read_raw_number(58) {
            Ok(byte_count) => {
                if byte_count > usize::MAX as u64 {
                    Err(DecodeError::EarlyEndOfInput)
                } else {
                    self.read_bytes(byte_count as usize)
                }
            },
            Err(e) => Err(e),
        };
        proof {
            assert forall|b: Seq<u8>| #[trigger] starts_at(s, p, enc_str(b)) implies r is Ok
                && r->Ok_0@ == b && self.position == p + enc_str(b).len() by {
                lemma_str_encoding(s, p, b);
            }
        }
        r
    }

    fn read_list(&mut self) -> (r: Result<BValue, DecodeError>)
        requires
            old(self).wf(),
            old(self).position < old(self).input@.len(),
        ensures
            final(self).moved_on(old(self)),
            r matches Ok(v) ==> value_wf(v) && final(self).position > old(self).position,
            forall|v: BValue|
                v is List && canonical(v) && #[trigger] starts_at(
                    old(self).input@,
                    old(self).position as int,
                    enc(v),
                ) ==> r is Ok && same_value(v, r->Ok_0) && final(self).position == old(
                    self,
                ).position + enc(v).len(),
        decreases old(self).input@.len() - old(self).position, 0nat,
    {
        let ghost s = self.input@;
        let ghost p = self.position as int;
        self.advance();
        let mut items: Vec<BValue> = Vec::new();
        loop
            invariant
                self.moved_on(old(self)),
                s == self.input@,
                p == old(self).position,
                self.position > p,
                forall|i: int| 0 <= i < items@.len() ==> value_wf(#[trigger] items@[i]),
                forall|v: BValue|
                    v is List && canonical(v) && #[trigger] starts_at(s, p, enc(v)) ==> {
                        let l = v->List_0@;
                        &&& items@.len() <= l.len()
                        &&& self.position == p + 1 + enc_list(l, items@.len()).len()
                        &&& forall|j: int| 0 <= j < items@.len() ==> same_value(#[trigger] l[j], items@[j])
                    },
            decreases self.input@.len() - self.position,
        {
            let ghost q = self.position as int;
            let ghost k = items@.len();
            proof {
                assert forall|v: BValue| v is List && canonical(v) && #[trigger] starts_at(s, p, enc(v))
                    implies {
                    let l = v->List_0@;
                    &&& (k < l.len() ==> starts_at(s, q, enc(l[k as int])) && canonical(l[k as int])
                        && q < s.len() && s[q] != 101)
                    &&& (k == l.len() ==> q < s.len() && s[q] == 101)
                } by {
                    let l = v->List_0@;
                    let e = enc(v);
                    lemma_enc_list_prefix(l, k, l.len());
                    if k < l.len() {
                        lemma_enc_list_prefix(l, (k + 1) as nat, l.len());
                        let off: int = 1 + enc_list(l, k).len() as int;
                        let part = enc(l[k as int]);
                        assert(enc_list(l, (k + 1) as nat) == enc_list(l, k) + part);
                        assert(e.subrange(off, off + part.len()) =~= part) by {
                            assert forall|j: int| 0 <= j < part.len() implies e.subrange(off, off + part.len())[j] == part[j] by {
                                assert(e[off + j] == enc_list(l, l.len())[off - 1 + j]);
                                assert(enc_list(l, l.len())[off - 1 + j] == enc_list(l, (k + 1) as nat)[off - 1 + j]);
                            }
                        }
                        lemma_starts_at_inner(s, p, e, off, part);
                        lemma_enc_first(l[k as int]);
                        assert(s[q] == part[0]);
                    } else {
                        assert(s[q] == e[1 + enc_list(l, k).len() as int]);
                    }
                }
            }
            if self.match_byte(101) {
                let r = Ok(BValue::List(items));
                proof {
                    assert forall|v: BValue| v is List && canonical(v) && #[trigger] starts_at(s, p, enc(v))
                        implies r is Ok && same_value(v, r->Ok_0) && self.position == p + enc(v).len() by {
                        let l = v->List_0@;
                        assert(k == l.len());
                    }
                }
                return r;
            }
            let item = match self.read() {
                Ok(x) => x,
                Err(e) => {
                    return Err(e);
                },
            };
            let ghost before = items@;
            items.push(item);
            proof {
                assert forall|v: BValue| v is List && canonical(v) && #[trigger] starts_at(s, p, enc(v))
                    implies {
                    let l = v->List_0@;
                    &&& items@.len() <= l.len()
                    &&& self.position == p + 1 + enc_list(l, items@.len()).len()
                    &&& forall|j: int| 0 <= j < items@.len() ==> same_value(#[trigger] l[j], items@[j])
                } by {
                    let l = v->List_0@;
                    assert(starts_at(s, q, enc(l[k as int])));
                    assert(enc_list(l, (k + 1) as nat) == enc_list(l, k) + enc(l[k as int]));
                    assert forall|j: int| 0 <= j < items@.len() implies same_value(#[trigger] l[j], items@[j]) by {
                        if j < k {
                            assert(items@[j] == before[j]);
                        }
                    }
                }
            }
        }
    }

    #[verifier::rlimit(100)]
    fn read_dict(&mut self) -> (r: Result<BValue, DecodeError>)
        requires
            old(self).wf(),
            old(self).position < old(self).input@.len(),
        ensures
            final(self).moved_on(old(self)),
            r matches Ok(v) ==> value_wf(v) && final(self).position > old(self).position,
            forall|v: BValue|
                v is Dict && canonical(v) && #[trigger] starts_at(
                    old(self).input@,
                    old(self).position as int,
                    enc(v),
                ) ==> r is Ok && same_value(v, r->Ok_0) && final(self).position == old(
                    self,
                ).position + enc(v).len(),
        decreases old(self).input@.len() - old(self).position, 0nat,
    {
        let ghost s = self.input@;
        let ghost p = self.position as int;
        self.advance();
        let mut dict: Vec<(Vec<u8>, BValue)> = Vec::new();
        loop
            invariant
                self.moved_on(old(self)),
                s == self.input@,
                p == old(self).position,
                self.position > p,
                keys_sorted(dict@),
                forall|i: int| 0 <= i < dict@.len() ==> value_wf(#[trigger] dict@[i].1),
                forall|v: BValue|
                    v is Dict && canonical(v) && #[trigger] starts_at(s, p, enc(v)) ==> {
                        let d = v->Dict_0@;
                        &&& dict@.len() <= d.len()
                        &&& self.position == p + 1 + enc_dict(d, dict@.len()).len()
                        &&& entries_match(d, dict@)
                    },
            decreases self.input@.len() - self.position,
        {
            let ghost q = self.position as int;
            let ghost k = dict@.len();
            proof {
                assert forall|v: BValue| v is Dict && canonical(v) && #[trigger] starts_at(s, p, enc(v))
                    implies {
                    let d = v->Dict_0@;
                    &&& (k < d.len() ==> starts_at(s, q, enc_str(d[k as int].0@)) && starts_at(
                        s,
                        q + enc_str(d[k as int].0@).len(),
                        enc(d[k as int].1),
                    ) && canonical(d[k as int].1) && q < s.len() && s[q] != 101)
                    &&& (k == d.len() ==> q < s.len() && s[q] == 101)
                } by {
                    lemma_dict_step(s, p, q, k, v);
                }
            }
            let ghost dv = dict@;
            if self.match_byte(101) {
                let r = Ok(BValue::Dict(dict));
                proof {
                    assert forall|v: BValue| v is Dict && canonical(v) && #[trigger] starts_at(s, p, enc(v))
                        implies r is Ok && same_value(v, r->Ok_0) && self.position == p + enc(v).len() by {
                        let d = v->Dict_0@;
                        assert(k == d.len());
                        assert(dv.len() == d.len());
                        assert(r->Ok_0 == BValue::Dict(dict));
                        assert(entries_match(d, dv));
                        lemma_dict_done(v, r->Ok_0);
                    }
                }
                return r;
            }
            let key = match self.read_string() {
                Ok(x) => x,
                Err(e) => {
                    return Err(e);
                },
            };
            let ghost q2 = self.position as int;
            let value = match self.read() {
                Ok(x) => x,
                Err(e) => {
                    return Err(e);
                },
            };
            let ghost before = dict@;
            let ghost key_view = key@;
            proof {
                assert forall|v: BValue| v is Dict && canonical(v) && #[trigger] starts_at(s, p, enc(v))
                    implies (before.len() == 0 || lex_lt(before.last().0@, key_view)) by {
                    let d = v->Dict_0@;
                    if before.len() > 0 {
                        assert(key_view == d[k as int].0@);
                        assert(before.last().0@ == d[k - 1].0@);
                        assert(lex_lt(d[k - 1].0@, d[k as int].0@));
                    }
                }
            }
            dict_insert(&mut dict, key, value);
            assert forall|i: int| 0 <= i < dict@.len() implies value_wf(#[trigger] dict@[i].1) by {
                if dict@.len() == before.len() {
                    if dict@[i] != before[i] {
                        assert(dict@[i].1 == value);
                    }
                } else {
                }
            }
            proof {
                assert forall|v: BValue| v is Dict && canonical(v) && #[trigger] starts_at(s, p, enc(v))
                    implies {
                    let d = v->Dict_0@;
                    &&& dict@.len() <= d.len()
                    &&& self.position == p + 1 + enc_dict(d, dict@.len()).len()
                    &&& entries_match(d, dict@)
                } by {
                    let d = v->Dict_0@;
                    assert(dict@ == before.push((key, value)));
                    assert(k < d.len());
                    assert(starts_at(s, q, enc_str(d[k as int].0@)));
                    assert(key_view == d[k as int].0@);
                    assert(q2 == q + enc_str(d[k as int].0@).len());
                    assert(starts_at(s, q2, enc(d[k as int].1)));
                    assert(same_value(d[k as int].1, value));
                    assert(enc_dict(d, (k + 1) as nat) == enc_dict(d, k) + enc_str(d[k as int].0@) + enc(d[k as int].1));
                    lemma_dict_extend(d, before, dict@, key, value, k as int);
                }
            }
        }
    }
}

/// The value of the first entry with key `key`.
pub open spec fn lookup(d: Seq<(Vec<u8>, BValue)>, key: Seq<u8>) -> Option<BValue>
    decreases d.len(),
{
    if d.len() == 0 {
        None
    } else if d[0].0@ == key {
        Some(d[0].1)
    } else {
        lookup(d.drop_first(), key)
    }
}

/// Removing the entry at `i`, the first with its key, leaves the lookups of
/// every other key as they were.
pub proof fn lemma_lookup_remove(d: Seq<(Vec<u8>, BValue)>, i: int, key: Seq<u8>)
    requires
        0 <= i < d.len(),
        forall|j: int| 0 <= j < i ==> #[trigger] d[j].0@ != d[i].0@,
        key != d[i].0@,
    ensures
        lookup(d.remove(i), key) == lookup(d, key),
    decreases i,
{
    if i > 0 {
        assert(d.remove(i).drop_first() =~= d.drop_first().remove(i - 1));
        assert forall|j: int| 0 <= j < i - 1 implies #[trigger] d.drop_first()[j].0@ != d.drop_first()[i
            - 1].0@ by {
            assert(d[j + 1].0@ != d[i].0@);
        }
        lemma_lookup_remove(d.drop_first(), i - 1, key);
    } else {
        assert(d.remove(0) =~= d.drop_first());
    }
}

proof fn lemma_lookup_at(d: Seq<(Vec<u8>, BValue)>, i: int, key: Seq<u8>)
    requires
        0 <= i <= d.len(),
        forall|j: int| 0 <= j < i ==> #[trigger] d[j].0@ != key,
    ensures
        i < d.len() && d[i].0@ == key ==> lookup(d, key) == Some(d[i].1),
        i == d.len() ==> lookup(d, key) is None,
    decreases i,
{
    if i > 0 {
        assert forall|j: int| 0 <= j < i - 1 implies #[trigger] d.drop_first()[j].0@ != key by {
            assert(d[j + 1].0@ != key);
        }
        lemma_lookup_at(d.drop_first(), i - 1, key);
    }
}

fn bytes_eq(a: &[u8], b: &[u8]) -> (r: bool)
    ensures
        r == (a@ == b@),
{
    if a.len() != b.len() {
        return false;
    }
    let mut i: usize = 0;
    while i < a.len()
        invariant
            i <= a@.len() == b@.len(),
            forall|j: int| 0 <= j < i ==> a@[j] == b@[j],
        decreases a@.len() - i,
    {
        if a[i] != b[i] {
            return false;
        }
        i = i + 1;
    }
    assert(a@ =~= b@);
    true
}

/// Takes the first entry with key `key` out of `d` and returns its value.
pub fn dict_take(d: &mut Vec<(Vec<u8>, BValue)>, key: &[u8]) -> (r: Option<BValue>)
    ensures
        r == lookup(old(d)@, key@),
        forall|k: Seq<u8>| k != key@ ==> #[trigger] lookup(final(d)@, k) == lookup(old(d)@, k),
{
    let mut i: usize = 0;
    while i < d.len() && !bytes_eq(d[i].0.as_slice(), key)
        invariant
            i <= d@.len(),
            d@ == old(d)@,
            forall|j: int| 0 <= j < i ==> #[trigger] d@[j].0@ != key@,
        decreases d@.len() - i,
    {
        i = i + 1;
    }
    proof {
        lemma_lookup_at(d@, i as int, key@);
    }
    if i < d.len() {
        let ghost before = d@;
        let entry = d.remove(i);
        proof {
            assert forall|k: Seq<u8>| k != key@ implies #[trigger] lookup(d@, k) == lookup(
                before,
                k,
            ) by {
                lemma_lookup_remove(before, i as int, k);
            }
        }
        Some(entry.1)
    } else {
        None
    }
}

impl BValue {
    /// The entries of a dictionary.
    pub fn get_dict(self) -> (r: Option<Vec<(Vec<u8>, BValue)>>)
        ensures
            self matches BValue::Dict(d) ==> r == Some(d),
            !(self is Dict) ==> r is None,
    {
        match self {
            BValue::Dict(d) => Some(d),
            _ => None,
        }
    }

    /// The bytes of a string.
    pub fn get_string(self) -> (r: Option<Vec<u8>>)
        ensures
            self matches BValue::Str(s) ==> r == Some(s),
            !(self is Str) ==> r is None,
    {
        match self {
            BValue::Str(s) => Some(s),
            _ => None,
        }
    }

    /// The items of a list.
    pub fn get_list(self) -> (r: Option<Vec<BValue>>)
        ensures
            self matches BValue::List(l) ==> r == Some(l),
            !(self is List) ==> r is None,
    {
        match self {
            BValue::List(l) => Some(l),
            _ => None,
        }
    }

    /// The value of an integer.
    pub fn get_int(&self) -> (r: Option<i64>)
        ensures
            self matches BValue::Int(i) ==> r == Some(*i),
            !(self is Int) ==> r is None,
    {
        match self {
            BValue::Int(i) => Some(*i),
            _ => None,
        }
    }
}

/// The encoding of `value`.
pub fn encode(value: &BValue) -> (r: Vec<u8>)
    ensures
        r@ == enc(*value),
{
    let mut encoder = Encoder::new();
    encoder.write(value);
    encoder.get_output()
}

struct Encoder {
    result: Vec<u8>,
}

impl Encoder {
    fn new() -> (r: Encoder)
        ensures
            r.result@ == Seq::<u8>::empty(),
    {
        Encoder { result: Vec::new() }
    }

    fn get_output(self) -> (r: Vec<u8>)
        ensures
            r@ == self.result@,
    {
        self.result
    }

    fn write(&mut self, value: &BValue)
        ensures
            final(self).result@ == old(self).result@ + enc(*value),
        decreases value, 1nat,
    {
        match value {
            BValue::Int(i) => self.write_int(*i),
            BValue::Str(s) => self.write_string(s.as_slice()),
            BValue::List(l) => self.write_list(l),
            BValue::Dict(d) => self.write_dict(d),
        }
    }

    fn write_byte(&mut self, byte: u8)
        ensures
            final(self).result@ == old(self).result@.push(byte),
    {
        self.result.push(byte);
    }

    fn write_bytes(&mut self, bytes: &[u8])
        ensures
            final(self).result@ == old(self).result@ + bytes@,
    {
        let mut i: usize = 0;
        while i < bytes.len()
            invariant
                i <= bytes@.len(),
                self.result@ == old(self).result@ + bytes@.subrange(0, i as int),
            decreases bytes@.len() - i,
        {
            self.result.push(bytes[i]);
            i = i + 1;
            assert(bytes@.subrange(0, i as int) =~= bytes@.subrange(0, i - 1) + seq![
                bytes@[i - 1],
            ]);
        }
        assert(bytes@.subrange(0, i as int) =~= bytes@);
    }

    fn write_raw_number(&mut self, i: u64)
        ensures
            final(self).result@ == old(self).result@ + digits(i as nat),
        decreases i,
    {
        if i >= 10 {
            self.write_raw_number(i / 10);
        }
        let ch = (i % 10) as u8 + 48;
        self.write_byte(ch);
        assert(self.result@ =~= old(self).result@ + digits(i as nat));
    }

    fn write_int(&mut self, i: i64)
        ensures
            final(self).result@ == old(self).result@ + enc_int(i as int),
    {
        self.write_byte(105);
        if i < 0 {
            self.write_byte(45);
            let magnitude = (-(i + 1)) as u64 + 1;
            self.write_raw_number(magnitude);
        } else {
            self.write_raw_number(i as u64);
        }
        self.write_byte(101);
        assert(self.result@ =~= old(self).result@ + enc_int(i as int));
    }

    fn write_string(&mut self, s: &[u8])
        ensures
            final(self).result@ == old(self).result@ + enc_str(s@),
    {
        let length = s.len();
        self.write_raw_number(length as u64);
        self.write_byte(58);
        self.write_bytes(s);
        assert(self.result@ =~= old(self).result@ + enc_str(s@));
    }

    fn write_list(&mut self, list: &Vec<BValue>)
        ensures
            final(self).result@ == old(self).result@ + seq![108u8] + enc_list(list@, list@.len())
                + seq![101u8],
        decreases list, 0nat,
    {
        self.write_byte(108);
        let mut i: usize = 0;
        while i < list.len()
            invariant
                i <= list@.len(),
                self.result@ == old(self).result@ + seq![108u8] + enc_list(list@, i as nat),
            decreases list@.len() - i,
        {
            assert(decreases_to!(list => list@[i as int]));
            self.write(&list[i]);
            i = i + 1;
            assert(self.result@ =~= old(self).result@ + seq![108u8] + enc_list(list@, i as nat));
        }
        self.write_byte(101);
        assert(self.result@ =~= old(self).result@ + seq![108u8] + enc_list(list@, list@.len())
            + seq![101u8]);
    }

    fn write_dict(&mut self, dict: &Vec<(Vec<u8>, BValue)>)
        ensures
            final(self).result@ == old(self).result@ + seq![100u8] + enc_dict(dict@, dict@.len())
                + seq![101u8],
        decreases dict, 0nat,
    {
        self.write_byte(100);
        let mut i: usize = 0;
        while i < dict.len()
            invariant
                i <= dict@.len(),
                self.result@ == old(self).result@ + seq![100u8] + enc_dict(dict@, i as nat),
            decreases dict@.len() - i,
        {
            let entry = &dict[i];
            assert(decreases_to!(dict => dict@[i as int].1));
            self.write_string(entry.0.as_slice());
            self.write(&entry.1);
            i = i + 1;
            assert(self.result@ =~= old(self).result@ + seq![100u8] + enc_dict(dict@, i as nat));
        }
        self.write_byte(101);
        assert(self.result@ =~= old(self).result@ + seq![100u8] + enc_dict(dict@, dict@.len())
            + seq![101u8]);
    }
}

} // verus!
