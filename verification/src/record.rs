//! The persisted cache record: a palette as bytes, and its parser.
//!
//! A record is the JSON text `[[r,g,b],...,[r,g,b]]` with exactly
//! [`K`] triples, each channel a canonical decimal (no sign, no leading
//! zero, at most three digits, value at most 255), and no whitespace.  The
//! parser accepts exactly this shape; any other byte sequence decodes to
//! `None`, which callers treat as a cache miss.  Encoding then decoding a
//! palette of [`K`] colors gives the palette back unchanged.

use vstd::prelude::*;
use crate::cluster::K;

verus! {

/// An ASCII decimal digit.
pub open spec fn is_digit(b: u8) -> bool {
    48 <= b <= 57
}

/// Canonical decimal encoding of one channel value.
pub open spec fn enc_num(n: u8) -> Seq<u8> {
    if n < 10 {
        seq![(48 + n) as u8]
    } else if n < 100 {
        seq![(48 + n / 10) as u8, (48 + n % 10) as u8]
    } else {
        seq![(48 + n / 100) as u8, (48 + (n / 10) % 10) as u8, (48 + n % 10) as u8]
    }
}

/// Encoding of one color: `[r,g,b]`.
pub open spec fn enc_triple(c: (u8, u8, u8)) -> Seq<u8> {
    seq![91u8] + enc_num(c.0) + seq![44u8] + enc_num(c.1) + seq![44u8] + enc_num(c.2) + seq![93u8]
}

/// Encoding of the comma-separated list of colors.
pub open spec fn enc_items(p: Seq<(u8, u8, u8)>) -> Seq<u8>
    decreases p.len(),
{
    if p.len() == 0 {
        Seq::empty()
    } else if p.len() == 1 {
        enc_triple(p[0])
    } else {
        enc_triple(p[0]) + seq![44u8] + enc_items(p.drop_first())
    }
}

/// The full record: `[` list `]`.
pub open spec fn record_encode_spec(p: Seq<(u8, u8, u8)>) -> Seq<u8> {
    seq![91u8] + enc_items(p) + seq![93u8]
}

/// Length of the run of digits at the front of `s`.
pub open spec fn digit_run(s: Seq<u8>) -> int
    decreases s.len(),
{
    if s.len() == 0 || !is_digit(s[0]) {
        0
    } else {
        1 + digit_run(s.drop_first())
    }
}

/// Value of an all-digit sequence, most significant digit first.
pub open spec fn num_value(s: Seq<u8>) -> int
    decreases s.len(),
{
    if s.len() == 0 {
        0
    } else {
        num_value(s.drop_last()) * 10 + (s.last() - 48)
    }
}

/// Parse one canonical channel value from the front of `s`; on success the
/// value and the unconsumed rest.
pub open spec fn parse_num(s: Seq<u8>) -> Option<(u8, Seq<u8>)> {
    let k = digit_run(s);
    if k < 1 || k > 3 {
        None
    } else if k > 1 && s[0] == 48 {
        None
    } else if num_value(s.take(k)) > 255 {
        None
    } else {
        Some((num_value(s.take(k)) as u8, s.skip(k)))
    }
}

/// Parse one `[r,g,b]` from the front of `s`.
pub open spec fn parse_triple(s: Seq<u8>) -> Option<((u8, u8, u8), Seq<u8>)> {
    if s.len() == 0 || s[0] != 91 {
        None
    } else {
        match parse_num(s.drop_first()) {
            None => None,
            Some((r, s1)) => if s1.len() == 0 || s1[0] != 44 {
                None
            } else {
                match parse_num(s1.drop_first()) {
                    None => None,
                    Some((g, s2)) => if s2.len() == 0 || s2[0] != 44 {
                        None
                    } else {
                        match parse_num(s2.drop_first()) {
                            None => None,
                            Some((b, s3)) => if s3.len() == 0 || s3[0] != 93 {
                                None
                            } else {
                                Some(((r, g, b), s3.drop_first()))
                            },
                        }
                    },
                }
            },
        }
    }
}

/// Parse exactly `n` comma-separated triples from the front of `s`.
pub open spec fn parse_triples(s: Seq<u8>, n: nat) -> Option<(Seq<(u8, u8, u8)>, Seq<u8>)>
    decreases n,
{
    if n == 0 {
        Some((Seq::empty(), s))
    } else {
        match parse_triple(s) {
            None => None,
            Some((c, rest)) => if n == 1 {
                Some((seq![c], rest))
            } else if rest.len() >= 1 && rest[0] == 44 {
                match parse_triples(rest.drop_first(), (n - 1) as nat) {
                    None => None,
                    Some((cs, rest2)) => Some((seq![c] + cs, rest2)),
                }
            } else {
                None
            },
        }
    }
}

/// Decode a record: `[`, exactly [`K`] triples, `]`, end of input; anything
/// else is `None`.
pub open spec fn record_decode_spec(s: Seq<u8>) -> Option<Seq<(u8, u8, u8)>> {
    if s.len() == 0 || s[0] != 91 {
        None
    } else {
        match parse_triples(s.drop_first(), K as nat) {
            None => None,
            Some((cs, rest)) => if rest.len() == 1 && rest[0] == 93 {
                Some(cs)
            } else {
                None
            },
        }
    }
}

pub proof fn lemma_parse_triples_count(s: Seq<u8>, n: nat)
    ensures
        match parse_triples(s, n) {
            Some((cs, _)) => cs.len() == n,
            None => true,
        },
    decreases n,
{
    if n > 0 {
        match parse_triple(s) {
            None => {},
            Some((c, rest)) => {
                if n > 1 && rest.len() >= 1 && rest[0] == 44 {
                    lemma_parse_triples_count(rest.drop_first(), (n - 1) as nat);
                }
            },
        }
    }
}

/// A decoded record always holds exactly [`K`] colors.
pub proof fn lemma_record_decode_len(s: Seq<u8>)
    ensures
        match record_decode_spec(s) {
            Some(p) => p.len() == K,
            None => true,
        },
{
    if s.len() > 0 && s[0] == 91 {
        lemma_parse_triples_count(s.drop_first(), K as nat);
    }
}

/// Append the canonical decimal of `n`.
fn push_num(out: &mut Vec<u8>, n: u8)
    ensures
        final(out)@ == old(out)@ + enc_num(n),
{
    if n < 10 {
        out.push(48 + n);
    } else if n < 100 {
        out.push(48 + n / 10);
        out.push(48 + n % 10);
    } else {
        out.push(48 + n / 100);
        out.push(48 + (n / 10) % 10);
        out.push(48 + n % 10);
    }
    assert(out@ =~= old(out)@ + enc_num(n));
}

/// Append the encoding of one color.
fn push_triple(out: &mut Vec<u8>, c: (u8, u8, u8))
    ensures
        final(out)@ == old(out)@ + enc_triple(c),
{
    out.push(91);
    push_num(out, c.0);
    out.push(44);
    push_num(out, c.1);
    out.push(44);
    push_num(out, c.2);
    out.push(93);
    assert(out@ =~= old(out)@ + enc_triple(c));
}

proof fn lemma_enc_items_push(q: Seq<(u8, u8, u8)>, c: (u8, u8, u8))
    ensures
        enc_items(q.push(c)) == if q.len() == 0 {
            enc_triple(c)
        } else {
            enc_items(q) + seq![44u8] + enc_triple(c)
        },
    decreases q.len(),
{
    let s = q.push(c);
    if q.len() == 0 {
        assert(s.len() == 1 && s[0] == c);
    } else {
        assert(s[0] == q[0]);
        assert(s.drop_first() =~= q.drop_first().push(c));
        lemma_enc_items_push(q.drop_first(), c);
        if q.len() == 1 {
            assert(enc_items(s) == enc_triple(q[0]) + seq![44u8] + enc_triple(c));
            assert(enc_triple(q[0]) + seq![44u8] + enc_triple(c) =~= enc_items(q) + seq![44u8]
                + enc_triple(c));
        } else {
            assert(enc_items(s) == enc_triple(q[0]) + seq![44u8] + (enc_items(q.drop_first())
                + seq![44u8] + enc_triple(c)));
            assert(enc_triple(q[0]) + seq![44u8] + (enc_items(q.drop_first()) + seq![44u8]
                + enc_triple(c)) =~= enc_items(q) + seq![44u8] + enc_triple(c));
        }
    }
}

/// Encode a palette as a record.
pub fn record_encode(p: &Vec<(u8, u8, u8)>) -> (r: Vec<u8>)
    ensures
        r@ == record_encode_spec(p@),
{
    let mut out: Vec<u8> = Vec::new();
    out.push(91);
    let mut i: usize = 0;
    while i < p.len()
        invariant
            i <= p@.len(),
            out@ == seq![91u8] + enc_items(p@.take(i as int)),
        decreases p@.len() - i,
    {
        if i > 0 {
            out.push(44);
        }
        push_triple(&mut out, p[i]);
        proof {
            let prefix = p@.take(i as int);
            assert(p@.take(i + 1) =~= prefix.push(p@[i as int]));
            lemma_enc_items_push(prefix, p@[i as int]);
            assert(out@ =~= seq![91u8] + enc_items(p@.take(i + 1)));
        }
        i = i + 1;
    }
    out.push(93);
    proof {
        assert(p@.take(p@.len() as int) =~= p@);
        assert(out@ =~= record_encode_spec(p@));
    }
    out
}

proof fn lemma_digit_run_split(s: Seq<u8>, t: int)
    requires
        0 <= t <= s.len(),
        forall|k: int| 0 <= k < t ==> is_digit(#[trigger] s[k]),
        t == s.len() || !is_digit(s[t]),
    ensures
        digit_run(s) == t,
    decreases t,
{
    if t == 0 {
    } else {
        assert(is_digit(s[0]));
        lemma_digit_run_split(s.drop_first(), t - 1);
    }
}

proof fn lemma_digit_run_nonneg(s: Seq<u8>)
    ensures
        digit_run(s) >= 0,
    decreases s.len(),
{
    if s.len() > 0 && is_digit(s[0]) {
        lemma_digit_run_nonneg(s.drop_first());
    }
}

proof fn lemma_digit_run_ge(s: Seq<u8>, t: int)
    requires
        0 <= t <= s.len(),
        forall|k: int| 0 <= k < t ==> is_digit(#[trigger] s[k]),
    ensures
        digit_run(s) >= t,
    decreases t,
{
    if t > 0 {
        assert(is_digit(s[0]));
        assert forall|k: int| 0 <= k < t - 1 implies is_digit(#[trigger] s.drop_first()[k]) by {
            assert(s.drop_first()[k] == s[k + 1]);
        }
        lemma_digit_run_ge(s.drop_first(), t - 1);
        assert(digit_run(s) == 1 + digit_run(s.drop_first()));
    } else {
        lemma_digit_run_nonneg(s);
    }
}

/// Parse one channel value at byte offset `i`; on success the value and the
/// offset just past it.
fn parse_num_at(s: &Vec<u8>, i: usize) -> (r: Option<(u8, usize)>)
    requires
        i <= s@.len(),
    ensures
        match r {
            Some((v, j)) => parse_num(s@.skip(i as int)) == Some((v, s@.skip(j as int))) && i < j
                <= s@.len(),
            None => parse_num(s@.skip(i as int)) is None,
        },
{
    let ghost suf = s@.skip(i as int);
    let n = s.len();
    let mut t: usize = 0;
    while i + t < n && t < 4 && 48 <= s[i + t] && s[i + t] <= 57
        invariant
            i <= s@.len(),
            t <= 4,
            i + t <= n,
            n == s@.len(),
            forall|k: int| 0 <= k < t ==> is_digit(#[trigger] s@[i + k]),
        decreases n - (i + t),
    {
        t = t + 1;
    }
    proof {
        assert(forall|k: int| 0 <= k < t ==> suf[k] == s@[i + k]);
    }
    if t == 4 {
        proof {
            lemma_digit_run_ge(suf, 4);
        }
        return None;
    }
    proof {
        lemma_digit_run_split(suf, t as int);
    }
    if t == 0 {
        return None;
    }
    if t > 1 && s[i] == 48 {
        return None;
    }
    let mut v: u32 = 0;
    let mut q: usize = 0;
    while q < t
        invariant
            q <= t,
            t <= 3,
            i + t <= s@.len(),
            n == s@.len(),
            forall|k: int| 0 <= k < t ==> is_digit(#[trigger] s@[i + k]),
            v == num_value(s@.subrange(i as int, i + q)),
            q == 0 ==> v == 0,
            q == 1 ==> v <= 9,
            q == 2 ==> v <= 99,
            q == 3 ==> v <= 999,
        decreases t - q,
    {
        proof {
            let prev = s@.subrange(i as int, i + q);
            let next = s@.subrange(i as int, i + q + 1);
            assert(next.drop_last() =~= prev);
            assert(next.last() == s@[i + q]);
            assert(is_digit(s@[i + q]));
        }
        v = v * 10 + (s[i + q] - 48) as u32;
        q = q + 1;
    }
    proof {
        assert(s@.subrange(i as int, i + t) =~= suf.take(t as int));
    }
    if v > 255 {
        return None;
    }
    proof {
        assert(suf.skip(t as int) =~= s@.skip((i + t) as int));
    }
    Some((v as u8, i + t))
}

/// Parse one `[r,g,b]` at byte offset `i`; on success the color and the
/// offset just past it.
fn parse_triple_at(s: &Vec<u8>, i: usize) -> (r: Option<((u8, u8, u8), usize)>)
    requires
        i <= s@.len(),
    ensures
        match r {
            Some((c, j)) => parse_triple(s@.skip(i as int)) == Some((c, s@.skip(j as int))) && i
                < j <= s@.len(),
            None => parse_triple(s@.skip(i as int)) is None,
        },
{
    let ghost suf = s@.skip(i as int);
    let n = s.len();
    if i >= n || s[i] != 91 {
        return None;
    }
    proof {
        assert(suf.len() > 0 && suf[0] == 91);
        assert(suf.drop_first() =~= s@.skip(i + 1));
    }
    let r0 = parse_num_at(s, i + 1);
    match r0 {
        None => None,
        Some((rv, j1)) => {
            if j1 >= n || s[j1] != 44 {
                proof {
                    let s1 = s@.skip(j1 as int);
                    assert(s1.len() == 0 || s1[0] != 44);
                }
                return None;
            }
            proof {
                assert(s@.skip(j1 as int).drop_first() =~= s@.skip(j1 + 1));
            }
            let r1 = parse_num_at(s, j1 + 1);
            match r1 {
                None => None,
                Some((gv, j2)) => {
                    if j2 >= n || s[j2] != 44 {
                        proof {
                            let s2 = s@.skip(j2 as int);
                            assert(s2.len() == 0 || s2[0] != 44);
                        }
                        return None;
                    }
                    proof {
                        assert(s@.skip(j2 as int).drop_first() =~= s@.skip(j2 + 1));
                    }
                    let r2 = parse_num_at(s, j2 + 1);
                    match r2 {
                        None => None,
                        Some((bv, j3)) => {
                            if j3 >= n || s[j3] != 93 {
                                proof {
                                    let s3 = s@.skip(j3 as int);
                                    assert(s3.len() == 0 || s3[0] != 93);
                                }
                                return None;
                            }
                            proof {
                                assert(s@.skip(j3 as int).drop_first() =~= s@.skip(j3 + 1));
                            }
                            Some(((rv, gv, bv), j3 + 1))
                        },
                    }
                },
            }
        },
    }
}

/// What remains of a decode once a prefix has been consumed: the record
/// decodes to `done` followed by whatever `rem` more triples parse to at
/// offset `i`, with the closing bracket after them.
spec fn decode_continues(s: Seq<u8>, done: Seq<(u8, u8, u8)>, i: int, rem: nat) -> bool {
    record_decode_spec(s) == (match parse_triples(s.skip(i), rem) {
        None => None::<Seq<(u8, u8, u8)>>,
        Some((cs, rest)) => if rest.len() == 1 && rest[0] == 93 {
            Some(done + cs)
        } else {
            None
        },
    })
}

proof fn lemma_decode_init(s: Seq<u8>)
    requires
        s.len() > 0,
        s[0] == 91,
    ensures
        decode_continues(s, Seq::empty(), 1, K as nat),
{
    assert(s.skip(1int) =~= s.drop_first());
    match parse_triples(s.drop_first(), K as nat) {
        None => {},
        Some((cs, rest)) => {
            assert(Seq::<(u8, u8, u8)>::empty() + cs =~= cs);
        },
    }
}

proof fn lemma_decode_fail(s: Seq<u8>, done: Seq<(u8, u8, u8)>, i: int, rem: nat)
    requires
        decode_continues(s, done, i, rem),
        rem >= 1,
        parse_triple(s.skip(i)) is None,
    ensures
        record_decode_spec(s) is None,
{
}

proof fn lemma_decode_comma(
    s: Seq<u8>,
    done: Seq<(u8, u8, u8)>,
    i: int,
    rem: nat,
    c: (u8, u8, u8),
    i2: int,
)
    requires
        decode_continues(s, done, i, rem),
        rem >= 2,
        parse_triple(s.skip(i)) == Some((c, s.skip(i2))),
        0 <= i2,
        i2 + 1 <= s.len(),
        s.skip(i2).len() >= 1,
        s.skip(i2)[0] == 44,
    ensures
        decode_continues(s, done.push(c), i2 + 1, (rem - 1) as nat),
{
    assert(s.skip(i2).drop_first() =~= s.skip(i2 + 1));
    match parse_triples(s.skip(i2 + 1), (rem - 1) as nat) {
        None => {},
        Some((cs, r2)) => {
            assert(done + (seq![c] + cs) =~= done.push(c) + cs);
        },
    }
}

proof fn lemma_decode_no_comma(
    s: Seq<u8>,
    done: Seq<(u8, u8, u8)>,
    i: int,
    rem: nat,
    c: (u8, u8, u8),
    i2: int,
)
    requires
        decode_continues(s, done, i, rem),
        rem >= 2,
        parse_triple(s.skip(i)) == Some((c, s.skip(i2))),
        !(s.skip(i2).len() >= 1 && s.skip(i2)[0] == 44),
    ensures
        record_decode_spec(s) is None,
{
}

proof fn lemma_decode_last(s: Seq<u8>, done: Seq<(u8, u8, u8)>, i: int, c: (u8, u8, u8), i2: int)
    requires
        decode_continues(s, done, i, 1nat),
        parse_triple(s.skip(i)) == Some((c, s.skip(i2))),
    ensures
        decode_continues(s, done.push(c), i2, 0nat),
{
    assert(done + seq![c] =~= done.push(c));
    assert(done.push(c) + Seq::<(u8, u8, u8)>::empty() =~= done.push(c));
}

proof fn lemma_decode_finish(s: Seq<u8>, done: Seq<(u8, u8, u8)>, i: int)
    requires
        decode_continues(s, done, i, 0nat),
        0 <= i <= s.len(),
    ensures
        i == s.len() - 1 && s[i] == 93 ==> record_decode_spec(s) == Some(done),
        !(i == s.len() - 1 && s[i] == 93) ==> record_decode_spec(s) is None,
{
    let rest = s.skip(i);
    assert(rest.len() == s.len() - i);
    if i < s.len() {
        assert(rest[0] == s[i]);
    }
    assert(done + Seq::<(u8, u8, u8)>::empty() =~= done);
}

/// Decode a record; `None` for anything but the exact encoding of some
/// [`K`]-color palette.
pub fn record_decode(s: &Vec<u8>) -> (r: Option<Vec<(u8, u8, u8)>>)
    ensures
        match r {
            Some(p) => record_decode_spec(s@) == Some(p@) && p@.len() == K,
            None => record_decode_spec(s@) is None,
        },
{
    let n = s.len();
    if n == 0 || s[0] != 91 {
        return None;
    }
    let mut items: Vec<(u8, u8, u8)> = Vec::new();
    let mut i: usize = 1;
    let mut j: usize = 0;
    proof {
        lemma_decode_init(s@);
    }
    while j < K
        invariant
            j <= K,
            1 <= i <= s@.len(),
            n == s@.len(),
            items@.len() == j,
            decode_continues(s@, items@, i as int, (K - j) as nat),
        decreases K - j,
    {
        let tr = parse_triple_at(s, i);
        match tr {
            None => {
                proof {
                    lemma_decode_fail(s@, items@, i as int, (K - j) as nat);
                }
                return None;
            },
            Some((c, i2)) => {
                if j + 1 < K {
                    if i2 >= n || s[i2] != 44 {
                        proof {
                            let rest = s@.skip(i2 as int);
                            assert(rest.len() == 0 || rest[0] != 44);
                            lemma_decode_no_comma(
                                s@,
                                items@,
                                i as int,
                                (K - j) as nat,
                                c,
                                i2 as int,
                            );
                        }
                        return None;
                    }
                    proof {
                        let rest = s@.skip(i2 as int);
                        assert(rest.len() >= 1 && rest[0] == 44);
                        lemma_decode_comma(s@, items@, i as int, (K - j) as nat, c, i2 as int);
                    }
                    items.push(c);
                    i = i2 + 1;
                } else {
                    proof {
                        lemma_decode_last(s@, items@, i as int, c, i2 as int);
                    }
                    items.push(c);
                    i = i2;
                }
                j = j + 1;
            },
        }
    }
    proof {
        lemma_decode_finish(s@, items@, i as int);
    }
    let last_ok = i == n - 1 && s[i] == 93;
    if last_ok {
        Some(items)
    } else {
        None
    }
}

proof fn lemma_enc_num_shape(n: u8)
    ensures
        1 <= enc_num(n).len() <= 3,
        forall|k: int| 0 <= k < enc_num(n).len() ==> is_digit(#[trigger] enc_num(n)[k]),
        num_value(enc_num(n)) == n,
        enc_num(n).len() > 1 ==> enc_num(n)[0] != 48,
{
    let e = enc_num(n);
    assert(num_value(Seq::<u8>::empty()) == 0);
    if n < 10 {
        assert(e.drop_last() =~= Seq::<u8>::empty());
    } else if n < 100 {
        let one = seq![(48 + n / 10) as u8];
        assert(e.drop_last() =~= one);
        assert(one.drop_last() =~= Seq::<u8>::empty());
        assert(num_value(one) == n / 10);
        assert(num_value(e) == (n / 10) * 10 + n % 10);
        assert((n / 10) * 10 + n % 10 == n) by {
            vstd::arithmetic::div_mod::lemma_fundamental_div_mod(n as int, 10);
        }
        assert(n / 10 >= 1);
    } else {
        let one = seq![(48 + n / 100) as u8];
        let two = seq![(48 + n / 100) as u8, (48 + (n / 10) % 10) as u8];
        assert(e.drop_last() =~= two);
        assert(two.drop_last() =~= one);
        assert(one.drop_last() =~= Seq::<u8>::empty());
        assert(num_value(one) == n / 100);
        assert((n / 10) / 10 == n / 100) by {
            vstd::arithmetic::div_mod::lemma_div_denominator(n as int, 10, 10);
        }
        assert(((n / 10) / 10) * 10 + (n / 10) % 10 == n / 10) by {
            vstd::arithmetic::div_mod::lemma_fundamental_div_mod((n / 10) as int, 10);
        }
        assert(num_value(two) == (n / 100) * 10 + (n / 10) % 10 == n / 10);
        assert(num_value(e) == (n / 10) * 10 + n % 10);
        assert((n / 10) * 10 + n % 10 == n) by {
            vstd::arithmetic::div_mod::lemma_fundamental_div_mod(n as int, 10);
        }
        assert(n / 100 >= 1);
    }
}

proof fn lemma_parse_num_enc(n: u8, tail: Seq<u8>)
    requires
        tail.len() == 0 || !is_digit(tail[0]),
    ensures
        parse_num(enc_num(n) + tail) == Some((n, tail)),
{
    let e = enc_num(n);
    let s = e + tail;
    lemma_enc_num_shape(n);
    assert(forall|k: int| 0 <= k < e.len() ==> #[trigger] s[k] == e[k]);
    assert(e.len() == s.len() || !is_digit(s[e.len() as int]));
    lemma_digit_run_split(s, e.len() as int);
    assert(s.take(e.len() as int) =~= e);
    assert(s.skip(e.len() as int) =~= tail);
}

proof fn lemma_parse_triple_enc(c: (u8, u8, u8), tail: Seq<u8>)
    ensures
        parse_triple(enc_triple(c) + tail) == Some((c, tail)),
{
    let s = enc_triple(c) + tail;
    let t3 = seq![93u8] + tail;
    let t2 = enc_num(c.2) + t3;
    let t2c = seq![44u8] + t2;
    let t1 = enc_num(c.1) + t2c;
    let t1c = seq![44u8] + t1;
    let t0 = enc_num(c.0) + t1c;
    assert(s =~= seq![91u8] + t0);
    assert(s.len() > 0 && s[0] == 91);
    assert(s.drop_first() =~= t0);
    assert(t1c[0] == 44);
    lemma_parse_num_enc(c.0, t1c);
    assert(parse_num(s.drop_first()) == Some((c.0, t1c)));
    assert(t1c.drop_first() =~= t1);
    assert(t2c[0] == 44);
    lemma_parse_num_enc(c.1, t2c);
    assert(t2c.drop_first() =~= t2);
    assert(t3[0] == 93);
    lemma_parse_num_enc(c.2, t3);
    assert(t3.drop_first() =~= tail);
}

#[verifier::rlimit(100)]
#[verifier::spinoff_prover]
proof fn lemma_parse_triples_enc(p: Seq<(u8, u8, u8)>, tail: Seq<u8>)
    requires
        p.len() >= 1,
        tail.len() >= 1,
        tail[0] == 93,
    ensures
        parse_triples(enc_items(p) + tail, p.len() as nat) == Some((p, tail)),
    decreases p.len(),
{
    let s = enc_items(p) + tail;
    if p.len() == 1 {
        lemma_parse_triple_enc(p[0], tail);
        assert(parse_triple(s) == Some((p[0], tail)));
        assert(tail[0] != 44);
        assert(seq![p[0]] =~= p);
    } else {
        let rest = seq![44u8] + (enc_items(p.drop_first()) + tail);
        assert(s =~= enc_triple(p[0]) + rest);
        lemma_parse_triple_enc(p[0], rest);
        assert(parse_triple(s) == Some((p[0], rest)));
        assert(rest.len() >= 1 && rest[0] == 44);
        assert(rest.drop_first() =~= enc_items(p.drop_first()) + tail);
        lemma_parse_triples_enc(p.drop_first(), tail);
        assert(parse_triples(rest.drop_first(), (p.len() - 1) as nat) == Some(
            (p.drop_first(), tail),
        ));
        assert(seq![p[0]] + p.drop_first() =~= p);
    }
}

/// Round trip: decoding the encoding of any palette of [`K`] colors gives
/// the palette back.
pub proof fn lemma_record_roundtrip(p: Seq<(u8, u8, u8)>)
    requires
        p.len() == K,
    ensures
        record_decode_spec(record_encode_spec(p)) == Some(p),
{
    let s = record_encode_spec(p);
    let tail = seq![93u8];
    assert(s =~= seq![91u8] + (enc_items(p) + tail));
    assert(s.len() > 0 && s[0] == 91);
    assert(s.drop_first() =~= enc_items(p) + tail);
    lemma_parse_triples_enc(p, tail);
    assert(parse_triples(s.drop_first(), K as nat) == Some((p, tail)));
    assert(tail.len() == 1 && tail[0] == 93);
}

} // verus!
