//! Properties of the codec as a whole, proved over the grammar: what
//! decoding an encoded value gives back, and how reading fails.
use vstd::prelude::*;
use crate::bencode::ErrorKind;
use crate::grammar::{
    Value, decode_prefix, digits, digits_value, enc, enc_entries, enc_items, enc_text, fits_depth,
    has_key, insert_entry, is_digit, keys_unique, parse_entries, parse_int, parse_items, parse_text,
    parse_value, scan_digits, well_formed, lemma_scan,
};

verus! {

proof fn lemma_digits(n: nat)
    ensures
        digits(n).len() >= 1,
        forall|k: int| 0 <= k < digits(n).len() ==> is_digit(#[trigger] digits(n)[k]),
        digits_value(digits(n)) == n,
    decreases n,
{
    assert(digits_value(Seq::<u8>::empty()) == 0);
    if n < 10 {
        assert(digits(n).drop_last() =~= Seq::<u8>::empty());
        assert(digits(n).last() == (n + 48) as u8);
    } else {
        lemma_digits(n / 10);
        assert(digits(n).drop_last() =~= digits(n / 10));
        assert(digits(n).last() == ((n % 10) + 48) as u8);
        assert(digits_value(digits(n)) == digits_value(digits(n / 10)) * 10 + n % 10);
        assert((n / 10) * 10 + n % 10 == n) by (nonlinear_arith);
    }
}

/// A piece of `w`, read where `w` stands in `s`.
proof fn lemma_sub(s: Seq<u8>, pos: int, w: Seq<u8>, a: nat, b: nat)
    requires
        0 <= pos,
        pos + w.len() <= s.len(),
        s.subrange(pos, pos + w.len()) == w,
        0 <= a <= b <= w.len(),
    ensures
        s.subrange(pos + a, pos + b) == w.subrange(a as int, b as int),
        forall|k: int| a <= k < b ==> s[pos + k] == #[trigger] w[k],
{
    assert forall|k: int| a <= k < b implies s[pos + k] == #[trigger] w[k] by {
        assert(s.subrange(pos, pos + w.len())[k] == s[pos + k]);
    }
    assert(s.subrange(pos + a, pos + b) =~= w.subrange(a as int, b as int));
}

proof fn lemma_scan_run(s: Seq<u8>, pos: int, t: Seq<u8>)
    requires
        0 <= pos,
        pos + t.len() < s.len(),
        forall|k: int| 0 <= k < t.len() ==> s[pos + k] == #[trigger] t[k],
        forall|k: int| 0 <= k < t.len() ==> is_digit(#[trigger] t[k]),
        !is_digit(s[pos + t.len()]),
    ensures
        scan_digits(s, pos) == pos + t.len(),
    decreases t.len(),
{
    if t.len() > 0 {
        assert(s[pos] == t[0]);
        let r = t.drop_first();
        assert forall|k: int| 0 <= k < r.len() implies s[pos + 1 + k] == #[trigger] r[k] by {
            assert(s[pos + (k + 1)] == t[k + 1]);
        }
        lemma_scan_run(s, pos + 1, r);
    }
}

proof fn lemma_enc_first(v: Value)
    ensures
        enc(v).len() >= 1,
        enc(v)[0] != 101u8,
{
    match v {
        Value::Text(b) => {
            lemma_digits(b.len());
        },
        Value::Number(_) => {},
        Value::List(_) => {},
        Value::Dict(_) => {},
    }
}

proof fn lemma_text_at(b: Seq<u8>, s: Seq<u8>, pos: int)
    requires
        b.len() <= u64::MAX,
        0 <= pos,
        pos + enc_text(b).len() <= s.len(),
        s.subrange(pos, pos + enc_text(b).len()) == enc_text(b),
    ensures
        parse_text(s, pos) == Ok::<(Seq<u8>, int), (ErrorKind, int)>((b, pos + enc_text(b).len())),
        is_digit(s[pos]),
{
    let w = enc_text(b);
    let ds = digits(b.len());
    lemma_digits(b.len());
    lemma_sub(s, pos, w, 0, w.len());
    lemma_sub(s, pos, w, 0, ds.len());
    lemma_sub(s, pos, w, ds.len() + 1, w.len());
    assert(w.subrange(0, ds.len() as int) =~= ds);
    assert(w.subrange(ds.len() + 1 as int, w.len() as int) =~= b);
    assert(w[ds.len() as int] == 58u8);
    assert(w[0] == ds[0]);
    lemma_scan_run(s, pos, ds);
}

proof fn lemma_value_at(v: Value, s: Seq<u8>, pos: int, d: nat)
    requires
        well_formed(v),
        fits_depth(v, d),
        0 <= pos,
        pos + enc(v).len() <= s.len(),
        s.subrange(pos, pos + enc(v).len()) == enc(v),
    ensures
        parse_value(s, pos, d) == Ok::<(Value, int), (ErrorKind, int)>((v, pos + enc(v).len())),
    decreases v,
{
    let w = enc(v);
    lemma_sub(s, pos, w, 0, w.len());
    match v {
        Value::Text(b) => {
            lemma_text_at(b, s, pos);
            lemma_enc_first(v);
        },
        Value::Number(n) => {
            let ds = digits(n as nat);
            lemma_digits(n as nat);
            lemma_sub(s, pos, w, 1, ds.len() + 1);
            assert forall|k: int| 0 <= k < ds.len() implies s[pos + 1 + k] == #[trigger] ds[k] by {
                assert(w[1 + k] == ds[k]);
            }
            assert(w[ds.len() as int + 1] == 101u8);
            lemma_scan_run(s, pos + 1, ds);
            assert(w.subrange(1, ds.len() as int + 1) =~= ds);
            assert(parse_int(s, pos) == Ok::<(u64, int), (ErrorKind, int)>((n, pos + w.len())));
            assert(w[0] == 105u8);
            assert(s[pos] == 105u8);
            assert(parse_value(s, pos, d) == Ok::<(Value, int), (ErrorKind, int)>((v, pos + enc(v).len())));
        },
        Value::List(items) => {
            let ei = enc_items(items);
            assert(w[0] == 108u8);
            lemma_sub(s, pos, w, 1, ei.len() + 1);
            assert(w.subrange(1, ei.len() as int + 1) =~= ei);
            assert(w[ei.len() as int + 1] == 101u8);
            lemma_items_at(items, s, pos + 1, (d - 1) as nat, seq![]);
            assert(Seq::<Value>::empty() + items =~= items);
            assert(parse_value(s, pos, d) == Ok::<(Value, int), (ErrorKind, int)>((v, pos + enc(v).len())));
        },
        Value::Dict(es) => {
            let ee = enc_entries(es);
            assert(w[0] == 100u8);
            lemma_sub(s, pos, w, 1, ee.len() + 1);
            assert(w.subrange(1, ee.len() as int + 1) =~= ee);
            assert(w[ee.len() as int + 1] == 101u8);
            assert(Seq::<(Seq<u8>, Value)>::empty() + es =~= es);
            assert forall|i: int| 0 <= i < es.len() implies (#[trigger] es[i]).0.len() <= u64::MAX
                && well_formed(es[i].1) && fits_depth(es[i].1, (d - 1) as nat) by {
                assert(well_formed(es[i].1));
                assert(fits_depth(es[i].1, (d - 1) as nat));
            }
            lemma_entries_at(es, s, pos + 1, (d - 1) as nat, seq![]);
            assert(parse_value(s, pos, d) == Ok::<(Value, int), (ErrorKind, int)>((v, pos + enc(v).len())));
        },
    }
}

proof fn lemma_items_at(items: Seq<Value>, s: Seq<u8>, p: int, d: nat, acc: Seq<Value>)
    requires
        forall|i: int| 0 <= i < items.len() ==> well_formed(#[trigger] items[i]) && fits_depth(items[i], d),
        0 <= p,
        p + enc_items(items).len() < s.len(),
        s.subrange(p, p + enc_items(items).len()) == enc_items(items),
        s[p + enc_items(items).len()] == 101u8,
    ensures
        parse_items(s, p, d, acc) == Ok::<(Seq<Value>, int), (ErrorKind, int)>(
            (acc + items, p + enc_items(items).len() + 1),
        ),
    decreases items,
{
    if items.len() == 0 {
        assert(acc + items =~= acc);
    } else {
        let w = enc_items(items);
        let w0 = enc(items[0]);
        let rest = items.drop_first();
        lemma_enc_first(items[0]);
        lemma_sub(s, p, w, 0, w0.len());
        lemma_sub(s, p, w, w0.len(), w.len());
        assert(w.subrange(0, w0.len() as int) =~= w0);
        assert(w.subrange(w0.len() as int, w.len() as int) =~= enc_items(rest));
        lemma_value_at(items[0], s, p, d);
        assert forall|i: int| 0 <= i < rest.len() implies well_formed(#[trigger] rest[i]) && fits_depth(rest[i], d) by {
            assert(rest[i] == items[i + 1]);
        }
        lemma_items_at(rest, s, p + w0.len(), d, acc.push(items[0]));
        assert(acc.push(items[0]) + rest =~= acc + items);
    }
}

proof fn lemma_entries_at(es: Seq<(Seq<u8>, Value)>, s: Seq<u8>, p: int, d: nat, acc: Seq<(Seq<u8>, Value)>)
    requires
        forall|i: int|
            0 <= i < es.len() ==> (#[trigger] es[i]).0.len() <= u64::MAX && well_formed(es[i].1)
                && fits_depth(es[i].1, d),
        keys_unique(acc + es),
        0 <= p,
        p + enc_entries(es).len() < s.len(),
        s.subrange(p, p + enc_entries(es).len()) == enc_entries(es),
        s[p + enc_entries(es).len()] == 101u8,
    ensures
        parse_entries(s, p, d, acc) == Ok::<(Seq<(Seq<u8>, Value)>, int), (ErrorKind, int)>(
            (acc + es, p + enc_entries(es).len() + 1),
        ),
    decreases es,
{
    if es.len() == 0 {
        assert(acc + es =~= acc);
    } else {
        let w = enc_entries(es);
        let (k, v) = es[0];
        let wk = enc_text(k);
        let wv = enc(v);
        let rest = es.drop_first();
        lemma_enc_first(v);
        lemma_sub(s, p, w, 0, wk.len());
        lemma_sub(s, p, w, wk.len(), wk.len() + wv.len());
        lemma_sub(s, p, w, wk.len() + wv.len(), w.len());
        assert(w.subrange(0, wk.len() as int) =~= wk);
        assert(w.subrange(wk.len() as int, wk.len() + wv.len() as int) =~= wv);
        assert(w.subrange(wk.len() + wv.len() as int, w.len() as int) =~= enc_entries(rest));
        lemma_text_at(k, s, p);
        lemma_digits(k.len());
        lemma_value_at(v, s, p + wk.len(), d);
        assert(!has_key(acc, k)) by {
            if has_key(acc, k) {
                let i = choose|i: int| 0 <= i < acc.len() && #[trigger] acc[i].0 == k;
                assert((acc + es)[i].0 == (acc + es)[acc.len() as int].0);
            }
        }
        assert(insert_entry(acc, k, v) == acc.push((k, v)));
        assert forall|i: int| 0 <= i < rest.len() implies (#[trigger] rest[i]).0.len() <= u64::MAX
            && well_formed(rest[i].1) && fits_depth(rest[i].1, d) by {
            assert(rest[i] == es[i + 1]);
        }
        assert(acc.push((k, v)) + rest =~= acc + es);
        lemma_entries_at(rest, s, p + wk.len() + wv.len(), d, acc.push((k, v)));
    }
}

/// Decoding the encoding of a value gives the value back, having read
/// exactly the encoding: for every value whose dictionaries have distinct
/// keys and whose containers nest no deeper than the limit.
pub proof fn lemma_round_trip(v: Value, max_depth: nat)
    requires
        well_formed(v),
        fits_depth(v, max_depth),
    ensures
        decode_prefix(enc(v), max_depth) == Ok::<(Value, int), (ErrorKind, int)>((v, enc(v).len() as int)),
{
    assert(enc(v).subrange(0, enc(v).len() as int) =~= enc(v));
    lemma_value_at(v, enc(v), 0, max_depth);
}

/// Encoding is a function of the value alone: equal values have
/// byte-identical encodings.
pub proof fn lemma_encode_deterministic(a: Value, b: Value)
    requires
        a == b,
    ensures
        enc(a) == enc(b),
{
}

proof fn lemma_scan_prefix(s: Seq<u8>, t: Seq<u8>, pos: int)
    requires
        t.len() <= s.len(),
        t == s.subrange(0, t.len() as int),
        0 <= pos <= t.len(),
    ensures
        scan_digits(s, pos) < t.len() ==> scan_digits(t, pos) == scan_digits(s, pos),
        scan_digits(s, pos) >= t.len() ==> scan_digits(t, pos) == t.len(),
    decreases t.len() - pos,
{
    lemma_scan(s, pos);
    if pos < t.len() {
        assert(t[pos] == s[pos]);
        if is_digit(s[pos]) {
            lemma_scan_prefix(s, t, pos + 1);
        }
    }
}

proof fn lemma_int_prefix(s: Seq<u8>, t: Seq<u8>, start: int)
    requires
        t.len() <= s.len(),
        t == s.subrange(0, t.len() as int),
        0 <= start < t.len(),
        parse_int(s, start) is Ok,
    ensures
        start < parse_int(s, start)->Ok_0.1 <= s.len(),
        parse_int(s, start)->Ok_0.1 <= t.len() ==> parse_int(t, start) == parse_int(s, start),
        parse_int(s, start)->Ok_0.1 > t.len() ==> parse_int(t, start) is Err,
{
    lemma_scan(s, start + 1);
    lemma_scan_prefix(s, t, start + 1);
    let end = scan_digits(s, start + 1);
    if end < t.len() {
        assert(t[end] == s[end]);
        assert(t.subrange(start + 1, end) =~= s.subrange(start + 1, end));
    }
}

proof fn lemma_text_prefix(s: Seq<u8>, t: Seq<u8>, start: int)
    requires
        t.len() <= s.len(),
        t == s.subrange(0, t.len() as int),
        0 <= start < t.len(),
        parse_text(s, start) is Ok,
    ensures
        start < parse_text(s, start)->Ok_0.1 <= s.len(),
        parse_text(s, start)->Ok_0.1 <= t.len() ==> parse_text(t, start) == parse_text(s, start),
        parse_text(s, start)->Ok_0.1 > t.len() ==> parse_text(t, start) is Err,
{
    lemma_scan(s, start);
    lemma_scan_prefix(s, t, start);
    let colon = scan_digits(s, start);
    if colon < t.len() {
        assert(t[colon] == s[colon]);
        assert(t.subrange(start, colon) =~= s.subrange(start, colon));
        let end = parse_text(s, start)->Ok_0.1;
        if end <= t.len() {
            assert(t.subrange(colon + 1, end) =~= s.subrange(colon + 1, end));
        }
    }
}

proof fn lemma_value_prefix(s: Seq<u8>, t: Seq<u8>, pos: int, d: nat)
    requires
        t.len() <= s.len(),
        t == s.subrange(0, t.len() as int),
        0 <= pos <= t.len(),
        parse_value(s, pos, d) is Ok,
    ensures
        pos < parse_value(s, pos, d)->Ok_0.1 <= s.len(),
        parse_value(s, pos, d)->Ok_0.1 <= t.len() ==> parse_value(t, pos, d) == parse_value(s, pos, d),
        parse_value(s, pos, d)->Ok_0.1 > t.len() ==> parse_value(t, pos, d) is Err,
    decreases s.len() - pos, 0int,
{
    assert(s.subrange(0, s.len() as int) =~= s);
    let b = s[pos];
    if pos < t.len() {
        assert(t[pos] == b);
    }
    if b == 105u8 {
        if pos < t.len() {
            lemma_int_prefix(s, t, pos);
        } else {
            lemma_int_prefix(s, s, pos);
        }
    } else if is_digit(b) {
        if pos < t.len() {
            lemma_text_prefix(s, t, pos);
        } else {
            lemma_text_prefix(s, s, pos);
        }
    } else if b == 108u8 {
        if pos < t.len() {
            lemma_items_prefix(s, t, pos + 1, (d - 1) as nat, seq![]);
        } else {
            lemma_items_prefix(s, s, pos + 1, (d - 1) as nat, seq![]);
        }
    } else {
        if pos < t.len() {
            lemma_entries_prefix(s, t, pos + 1, (d - 1) as nat, seq![]);
        } else {
            lemma_entries_prefix(s, s, pos + 1, (d - 1) as nat, seq![]);
        }
    }
}

proof fn lemma_items_prefix(s: Seq<u8>, t: Seq<u8>, p: int, d: nat, acc: Seq<Value>)
    requires
        t.len() <= s.len(),
        t == s.subrange(0, t.len() as int),
        0 <= p <= t.len(),
        parse_items(s, p, d, acc) is Ok,
    ensures
        p < parse_items(s, p, d, acc)->Ok_0.1 <= s.len(),
        parse_items(s, p, d, acc)->Ok_0.1 <= t.len() ==> parse_items(t, p, d, acc) == parse_items(s, p, d, acc),
        parse_items(s, p, d, acc)->Ok_0.1 > t.len() ==> parse_items(t, p, d, acc) is Err,
    decreases s.len() - p, 1int,
{
    assert(s.subrange(0, s.len() as int) =~= s);
    if p < t.len() {
        assert(t[p] == s[p]);
    }
    if s[p] != 101u8 {
        let (v, next) = parse_value(s, p, d)->Ok_0;
        lemma_value_prefix(s, t, p, d);
        if next <= t.len() {
            lemma_items_prefix(s, t, next, d, acc.push(v));
        } else {
            lemma_items_prefix(s, s, next, d, acc.push(v));
        }
    }
}

proof fn lemma_entries_prefix(s: Seq<u8>, t: Seq<u8>, p: int, d: nat, acc: Seq<(Seq<u8>, Value)>)
    requires
        t.len() <= s.len(),
        t == s.subrange(0, t.len() as int),
        0 <= p <= t.len(),
        parse_entries(s, p, d, acc) is Ok,
    ensures
        p < parse_entries(s, p, d, acc)->Ok_0.1 <= s.len(),
        parse_entries(s, p, d, acc)->Ok_0.1 <= t.len() ==> parse_entries(t, p, d, acc) == parse_entries(s, p, d, acc),
        parse_entries(s, p, d, acc)->Ok_0.1 > t.len() ==> parse_entries(t, p, d, acc) is Err,
    decreases s.len() - p, 1int,
{
    assert(s.subrange(0, s.len() as int) =~= s);
    if p < t.len() {
        assert(t[p] == s[p]);
    }
    if s[p] != 101u8 {
        let (k, after_key) = parse_text(s, p)->Ok_0;
        if p < t.len() {
            lemma_text_prefix(s, t, p);
        } else {
            lemma_text_prefix(s, s, p);
        }
        let (v, next) = parse_value(s, after_key, d)->Ok_0;
        if after_key <= t.len() {
            lemma_value_prefix(s, t, after_key, d);
        } else {
            lemma_value_prefix(s, s, after_key, d);
        }
        if next <= t.len() {
            lemma_entries_prefix(s, t, next, d, insert_entry(acc, k, v));
        } else {
            lemma_entries_prefix(s, s, next, d, insert_entry(acc, k, v));
        }
    }
}

/// A document cut short fails: if reading `s` succeeds after `n` bytes,
/// reading any of its first `k < n` bytes alone ends in an error, never in
/// a value.
pub proof fn lemma_truncation_fails(s: Seq<u8>, max_depth: nat, k: int)
    requires
        decode_prefix(s, max_depth) is Ok,
        0 <= k < decode_prefix(s, max_depth)->Ok_0.1,
    ensures
        decode_prefix(s.subrange(0, k), max_depth) is Err,
{
    assert(s.subrange(0, s.len() as int) =~= s);
    lemma_value_prefix(s, s, 0, max_depth);
    let t = s.subrange(0, k);
    assert(t.subrange(0, t.len() as int) =~= t);
    assert(s.subrange(0, t.len() as int) =~= t);
    lemma_value_prefix(s, t, 0, max_depth);
}

/// Every strict prefix of the encoding of a value fails to decode.
pub proof fn lemma_truncated_encoding_fails(v: Value, max_depth: nat, k: int)
    requires
        well_formed(v),
        fits_depth(v, max_depth),
        0 <= k < enc(v).len(),
    ensures
        decode_prefix(enc(v).subrange(0, k), max_depth) is Err,
{
    lemma_round_trip(v, max_depth);
    lemma_truncation_fails(enc(v), max_depth, k);
}

proof fn lemma_depth_at(v: Value, s: Seq<u8>, pos: int, d: nat)
    requires
        well_formed(v),
        !fits_depth(v, d),
        0 <= pos,
        pos + enc(v).len() <= s.len(),
        s.subrange(pos, pos + enc(v).len()) == enc(v),
    ensures
        parse_value(s, pos, d) is Err,
        parse_value(s, pos, d)->Err_0.0 == ErrorKind::DepthLimit,
    decreases v,
{
    let w = enc(v);
    lemma_sub(s, pos, w, 0, w.len());
    match v {
        Value::List(items) => {
            assert(w[0] == 108u8);
            if d > 0 {
                let ei = enc_items(items);
                lemma_sub(s, pos, w, 1, ei.len() + 1);
                assert(w.subrange(1, ei.len() as int + 1) =~= ei);
                assert(w[ei.len() as int + 1] == 101u8);
                lemma_items_depth(items, s, pos + 1, (d - 1) as nat, seq![]);
            }
        },
        Value::Dict(es) => {
            assert(w[0] == 100u8);
            if d > 0 {
                let ee = enc_entries(es);
                lemma_sub(s, pos, w, 1, ee.len() + 1);
                assert(w.subrange(1, ee.len() as int + 1) =~= ee);
                assert(w[ee.len() as int + 1] == 101u8);
                assert forall|i: int| 0 <= i < es.len() implies (#[trigger] es[i]).0.len() <= u64::MAX
                    && well_formed(es[i].1) by {
                    assert(well_formed(es[i].1));
                }
                lemma_entries_depth(es, s, pos + 1, (d - 1) as nat, seq![]);
            }
        },
        _ => {},
    }
}

proof fn lemma_items_depth(items: Seq<Value>, s: Seq<u8>, p: int, d: nat, acc: Seq<Value>)
    requires
        forall|i: int| 0 <= i < items.len() ==> well_formed(#[trigger] items[i]),
        exists|i: int| 0 <= i < items.len() && !fits_depth(#[trigger] items[i], d),
        0 <= p,
        p + enc_items(items).len() < s.len(),
        s.subrange(p, p + enc_items(items).len()) == enc_items(items),
    ensures
        parse_items(s, p, d, acc) is Err,
        parse_items(s, p, d, acc)->Err_0.0 == ErrorKind::DepthLimit,
    decreases items,
{
    let w = enc_items(items);
    let w0 = enc(items[0]);
    let rest = items.drop_first();
    lemma_enc_first(items[0]);
    lemma_sub(s, p, w, 0, w0.len());
    lemma_sub(s, p, w, w0.len(), w.len());
    assert(w.subrange(0, w0.len() as int) =~= w0);
    assert(w.subrange(w0.len() as int, w.len() as int) =~= enc_items(rest));
    assert(w[0] == w0[0]);
    if !fits_depth(items[0], d) {
        lemma_depth_at(items[0], s, p, d);
    } else {
        lemma_value_at(items[0], s, p, d);
        let i = choose|i: int| 0 <= i < items.len() && !fits_depth(#[trigger] items[i], d);
        assert(rest[i - 1] == items[i]);
        assert forall|j: int| 0 <= j < rest.len() implies well_formed(#[trigger] rest[j]) by {
            assert(rest[j] == items[j + 1]);
        }
        lemma_items_depth(rest, s, p + w0.len(), d, acc.push(items[0]));
    }
}

proof fn lemma_entries_depth(es: Seq<(Seq<u8>, Value)>, s: Seq<u8>, p: int, d: nat, acc: Seq<(Seq<u8>, Value)>)
    requires
        forall|i: int| 0 <= i < es.len() ==> (#[trigger] es[i]).0.len() <= u64::MAX && well_formed(es[i].1),
        exists|i: int| 0 <= i < es.len() && !fits_depth(#[trigger] es[i].1, d),
        0 <= p,
        p + enc_entries(es).len() < s.len(),
        s.subrange(p, p + enc_entries(es).len()) == enc_entries(es),
    ensures
        parse_entries(s, p, d, acc) is Err,
        parse_entries(s, p, d, acc)->Err_0.0 == ErrorKind::DepthLimit,
    decreases es,
{
    let w = enc_entries(es);
    let (k, v) = es[0];
    let wk = enc_text(k);
    let wv = enc(v);
    let rest = es.drop_first();
    lemma_enc_first(v);
    lemma_sub(s, p, w, 0, wk.len());
    lemma_sub(s, p, w, wk.len(), wk.len() + wv.len());
    lemma_sub(s, p, w, wk.len() + wv.len(), w.len());
    assert(w.subrange(0, wk.len() as int) =~= wk);
    assert(w.subrange(wk.len() as int, wk.len() + wv.len() as int) =~= wv);
    assert(w.subrange(wk.len() + wv.len() as int, w.len() as int) =~= enc_entries(rest));
    lemma_text_at(k, s, p);
    lemma_digits(k.len());
    if !fits_depth(v, d) {
        lemma_depth_at(v, s, p + wk.len(), d);
    } else {
        lemma_value_at(v, s, p + wk.len(), d);
        let i = choose|i: int| 0 <= i < es.len() && !fits_depth(#[trigger] es[i].1, d);
        assert(rest[i - 1] == es[i]);
        assert forall|j: int| 0 <= j < rest.len() implies (#[trigger] rest[j]).0.len() <= u64::MAX
            && well_formed(rest[j].1) by {
            assert(rest[j] == es[j + 1]);
        }
        lemma_entries_depth(rest, s, p + wk.len() + wv.len(), d, insert_entry(acc, k, v));
    }
}

/// A document whose containers nest deeper than the limit fails with
/// `ErrorKind::DepthLimit`.
pub proof fn lemma_depth_limit(v: Value, max_depth: nat)
    requires
        well_formed(v),
        !fits_depth(v, max_depth),
    ensures
        decode_prefix(enc(v), max_depth) is Err,
        decode_prefix(enc(v), max_depth)->Err_0.0 == ErrorKind::DepthLimit,
{
    assert(enc(v).subrange(0, enc(v).len() as int) =~= enc(v));
    lemma_depth_at(v, enc(v), 0, max_depth);
}

/// Inserting a key that is already present keeps the number of entries
/// and the key's position, and replaces its value; the other entries stay.
pub proof fn lemma_insert_existing_key<V>(entries: Seq<(Seq<u8>, V)>, i: int, v: V)
    requires
        keys_unique(entries),
        0 <= i < entries.len(),
    ensures
        insert_entry(entries, entries[i].0, v) == entries.update(i, (entries[i].0, v)),
        keys_unique(insert_entry(entries, entries[i].0, v)),
{
    let k = entries[i].0;
    assert(has_key(entries, k));
    let j = choose|j: int| 0 <= j < entries.len() && #[trigger] entries[j].0 == k;
    assert(i == j);
    let r = entries.update(i, (k, v));
    assert forall|a: int, b: int| 0 <= a < b < r.len() implies #[trigger] r[a].0 != #[trigger] r[b].0 by {
        assert(r[a].0 == entries[a].0);
        assert(r[b].0 == entries[b].0);
    }
}

proof fn lemma_entry_step(s: Seq<u8>, p: int, k: Seq<u8>, v: Value, d: nat, acc: Seq<(Seq<u8>, Value)>)
    requires
        k.len() <= u64::MAX,
        well_formed(v),
        fits_depth(v, d),
        0 <= p,
        p + enc_text(k).len() + enc(v).len() <= s.len(),
        s.subrange(p, p + enc_text(k).len() + enc(v).len()) == enc_text(k) + enc(v),
    ensures
        parse_entries(s, p, d, acc) == parse_entries(s, p + enc_text(k).len() + enc(v).len(), d, insert_entry(acc, k, v)),
{
    let wk = enc_text(k);
    let wv = enc(v);
    let w = wk + wv;
    lemma_enc_first(v);
    lemma_sub(s, p, w, 0, wk.len());
    lemma_sub(s, p, w, wk.len(), w.len());
    assert(w.subrange(0, wk.len() as int) =~= wk);
    assert(w.subrange(wk.len() as int, w.len() as int) =~= wv);
    lemma_text_at(k, s, p);
    lemma_digits(k.len());
    lemma_value_at(v, s, p + wk.len(), d);
}

/// A dictionary that repeats a key decodes to one entry for it, at the
/// position where the key first appeared, holding the value written last.
pub proof fn lemma_repeated_key(k: Seq<u8>, v1: Value, k2: Seq<u8>, w: Value, v2: Value, max_depth: nat)
    requires
        k != k2,
        k.len() <= u64::MAX,
        k2.len() <= u64::MAX,
        max_depth > 0,
        well_formed(v1) && fits_depth(v1, (max_depth - 1) as nat),
        well_formed(w) && fits_depth(w, (max_depth - 1) as nat),
        well_formed(v2) && fits_depth(v2, (max_depth - 1) as nat),
    ensures
        ({
            let doc = seq![100u8] + (enc_text(k) + enc(v1)) + (enc_text(k2) + enc(w)) + (enc_text(k) + enc(v2))
                + seq![101u8];
            decode_prefix(doc, max_depth) == Ok::<(Value, int), (ErrorKind, int)>(
                (Value::Dict(seq![(k, v2), (k2, w)]), doc.len() as int),
            )
        }),
{
    let d = (max_depth - 1) as nat;
    let x = enc_text(k) + enc(v1);
    let y = enc_text(k2) + enc(w);
    let z = enc_text(k) + enc(v2);
    let doc = seq![100u8] + x + y + z + seq![101u8];
    let first_at = 1int;
    let second_at = first_at + x.len();
    let third_at = second_at + y.len();
    let close_at = third_at + z.len();
    assert(doc.subrange(first_at, second_at) =~= x);
    assert(doc.subrange(second_at, third_at) =~= y);
    assert(doc.subrange(third_at, close_at) =~= z);
    assert(doc[close_at] == 101u8);
    assert(doc[0] == 100u8);
    let e0 = Seq::<(Seq<u8>, Value)>::empty();
    let e1 = seq![(k, v1)];
    let e2 = seq![(k, v1), (k2, w)];
    let e3 = seq![(k, v2), (k2, w)];
    lemma_entry_step(doc, first_at, k, v1, d, e0);
    lemma_entry_step(doc, second_at, k2, w, d, e1);
    lemma_entry_step(doc, third_at, k, v2, d, e2);
    assert(insert_entry(e0, k, v1) =~= e1);
    assert(!has_key(e1, k2));
    assert(insert_entry(e1, k2, w) =~= e2);
    lemma_insert_existing_key(e2, 0, v2);
    assert(e2.update(0, (k, v2)) =~= e3);
    assert(parse_entries(doc, close_at, d, e3) == Ok::<(Seq<(Seq<u8>, Value)>, int), (ErrorKind, int)>((e3, close_at + 1)));
}

} // verus!
