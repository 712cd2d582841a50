//! The byte-exact encoding of a definition: a self-describing structured text
//! form with field names preserved, e.g.
//! `{name:3:job,prefix:4:job:,field:5:state,states:[8:sleeping],events:[...]}`.
//! Every byte string is length-prefixed with its decimal length, so payloads
//! are binary safe and need no escaping.

use vstd::arithmetic::div_mod::lemma_fundamental_div_mod;
use vstd::arithmetic::div_mod::lemma_mod_bound;
use vstd::prelude::*;

use crate::machine::bytes_view;
use crate::machine::events_view;
use crate::machine::valid_machine;
use crate::machine::Event;
use crate::machine::EventView;
use crate::machine::MachineView;
use crate::machine::StateMachine;
use crate::FsmError;

verus! {

pub const LBRACE: u8 = 123;

pub const RBRACE: u8 = 125;

pub const LBRACK: u8 = 91;

pub const RBRACK: u8 = 93;

pub const COMMA: u8 = 44;

pub const COLON: u8 = 58;

/// Whether a byte is an ASCII decimal digit.
pub open spec fn is_digit(c: u8) -> bool {
    48 <= c <= 57
}

/// The numeric value of a digit byte.
pub open spec fn dval(c: u8) -> nat {
    if is_digit(c) {
        (c - 48) as nat
    } else {
        0
    }
}

/// The decimal digits of `n`, most significant first.
pub open spec fn dec_digits(n: nat) -> Seq<u8>
    decreases n,
{
    if n < 10 {
        seq![(48 + n) as u8]
    } else {
        dec_digits(n / 10).push((48 + n % 10) as u8)
    }
}

/// The number denoted by a digit string.
pub open spec fn dec_val(s: Seq<u8>) -> nat
    decreases s.len(),
{
    if s.len() == 0 {
        0
    } else {
        dec_val(s.drop_last()) * 10 + dval(s.last())
    }
}

pub proof fn lemma_dec_digits_are_digits(n: nat)
    ensures
        dec_digits(n).len() >= 1,
        forall|k: int| 0 <= k < dec_digits(n).len() ==> is_digit(#[trigger] dec_digits(n)[k]),
    decreases n,
{
    if n < 10 {
    } else {
        lemma_dec_digits_are_digits(n / 10);
        assert forall|k: int| 0 <= k < dec_digits(n).len() implies is_digit(
            #[trigger] dec_digits(n)[k],
        ) by {
            if k < dec_digits(n / 10).len() {
                assert(dec_digits(n)[k] == dec_digits(n / 10)[k]);
            }
        }
    }
}

pub proof fn lemma_dec_val_digits(n: nat)
    ensures
        dec_val(dec_digits(n)) == n,
    decreases n,
{
    if n < 10 {
        assert(dec_digits(n).drop_last() =~= Seq::<u8>::empty());
        assert(dec_val(Seq::<u8>::empty()) == 0);
        assert(dec_digits(n).last() == (48 + n) as u8);
        assert(dval((48 + n) as u8) == n);
    } else {
        lemma_dec_val_digits(n / 10);
        lemma_fundamental_div_mod(n as int, 10);
        lemma_mod_bound(n as int, 10);
        assert(dec_digits(n).drop_last() =~= dec_digits(n / 10));
        assert(dec_digits(n).last() == (48 + n % 10) as u8);
        assert(dval((48 + n % 10) as u8) == n % 10);
        assert(dec_val(dec_digits(n)) == dec_val(dec_digits(n / 10)) * 10 + n % 10);
        assert((n / 10) * 10 + n % 10 == n);
    }
}

pub proof fn lemma_dec_digits_no_leading_zero(n: nat)
    requires
        n >= 1,
    ensures
        dec_digits(n)[0] != 48,
    decreases n,
{
    if n < 10 {
    } else {
        lemma_dec_digits_no_leading_zero(n / 10);
        assert(dec_digits(n)[0] == dec_digits(n / 10)[0]);
    }
}

proof fn lemma_dec_val_positive(s: Seq<u8>)
    requires
        s.len() >= 1,
        forall|k: int| 0 <= k < s.len() ==> is_digit(#[trigger] s[k]),
        s[0] != 48,
    ensures
        dec_val(s) >= 1,
    decreases s.len(),
{
    if s.len() == 1 {
        assert(s.drop_last() =~= Seq::<u8>::empty());
    } else {
        lemma_dec_val_positive(s.drop_last());
        assert(s.drop_last()[0] == s[0]);
    }
}

/// A digit string without a leading zero is the canonical decimal form of its
/// value.
proof fn lemma_digits_canonical(s: Seq<u8>)
    requires
        s.len() >= 1,
        forall|k: int| 0 <= k < s.len() ==> is_digit(#[trigger] s[k]),
        s[0] != 48 || s.len() == 1,
    ensures
        dec_digits(dec_val(s)) == s,
    decreases s.len(),
{
    if s.len() == 1 {
        assert(s.drop_last() =~= Seq::<u8>::empty());
        assert(dec_val(Seq::<u8>::empty()) == 0);
        assert(dec_val(s) == dval(s[0]));
        assert(dec_digits(dec_val(s)) =~= s);
    } else {
        let s0 = s.drop_last();
        assert(s0[0] == s[0]);
        lemma_digits_canonical(s0);
        lemma_dec_val_positive(s0);
        let a = dec_val(s0);
        let d = dval(s.last());
        assert(dec_val(s) == a * 10 + d);
        assert(dec_val(s) >= 10);
        vstd::arithmetic::div_mod::lemma_fundamental_div_mod_converse(
            dec_val(s) as int,
            10,
            a as int,
            d as int,
        );
        assert(dec_digits(dec_val(s)) == dec_digits(a).push((48 + d) as u8));
        assert((48 + d) as u8 == s.last());
        assert(dec_digits(a).push(s.last()) =~= s);
    }
}

pub proof fn lemma_dec_val_prefix(s: Seq<u8>, k: int)
    requires
        0 <= k <= s.len(),
    ensures
        dec_val(s.take(k)) <= dec_val(s),
    decreases s.len() - k,
{
    if k == s.len() {
        assert(s.take(k) =~= s);
    } else {
        lemma_dec_val_prefix(s, k + 1);
        assert(s.take(k + 1).drop_last() =~= s.take(k));
    }
}

/// A sequence `b` carries, at position `i`, the decimal digits of `n`
/// followed by a non-digit (or the end of the sequence).
pub open spec fn can_parse_num(b: Seq<u8>, i: int, n: nat) -> bool {
    &&& n <= usize::MAX
    &&& 0 <= i
    &&& i + dec_digits(n).len() <= b.len()
    &&& b.subrange(i, i + dec_digits(n).len()) == dec_digits(n)
    &&& (i + dec_digits(n).len() == b.len() || !is_digit(b[i + dec_digits(n).len()]))
}

/// Whether position `j` of `buf` holds a digit.
fn digit_at(buf: &Vec<u8>, j: usize) -> (r: bool)
    ensures
        r == (j < buf@.len() && is_digit(buf@[j as int])),
        buf@.len() <= usize::MAX,
{
    let l: usize = buf.len();
    j < l && 48 <= buf[j] && buf[j] <= 57
}

/// Reads a maximal run of decimal digits starting at `i`, returning the value
/// and the position past the run; fails when no digit is present or the value
/// does not fit.
pub fn parse_num(buf: &Vec<u8>, i: usize) -> (r: Option<(usize, usize)>)
    requires
        i <= buf@.len(),
    ensures
        r matches Some(p) ==> i < p.1 <= buf@.len() && is_digit(buf@[i as int]),
        r matches Some(p) ==> buf@.subrange(i as int, p.1 as int) == dec_digits(p.0 as nat),
        forall|n: nat|
            can_parse_num(buf@, i as int, n) ==> (r matches Some(p) && p.0 as nat == n
                && p.1 as int == i + dec_digits(n).len()),
{
    let mut j: usize = i;
    let mut acc: usize = 0;
    proof {
        assert(buf@.subrange(i as int, i as int) =~= Seq::<u8>::empty());
    }
    while digit_at(buf, j)
        invariant
            i <= j <= buf@.len(),
            forall|k: int| i <= k < j ==> is_digit(#[trigger] buf@[k]),
            acc as nat == dec_val(buf@.subrange(i as int, j as int)),
        decreases buf@.len() - j,
    {
        let c = buf[j];
        let d: usize = (c - 48) as usize;
        proof {
            lemma_fundamental_div_mod((usize::MAX - d) as int, 10);
            lemma_mod_bound((usize::MAX - d) as int, 10);
        }
        if acc > (usize::MAX - d) / 10 {
            proof {
                assert forall|n: nat| !can_parse_num(buf@, i as int, n) by {
                    if can_parse_num(buf@, i as int, n) {
                        lemma_dec_digits_are_digits(n);
                        let t = i + dec_digits(n).len();
                        if t <= j as int {
                            assert(is_digit(buf@[t]));
                            assert(false);
                        }
                        assert(buf@.subrange(i as int, j + 1) =~= dec_digits(n).take(
                            j + 1 - i,
                        ));
                        lemma_dec_val_prefix(dec_digits(n), j + 1 - i);
                        lemma_dec_val_digits(n);
                        assert(buf@.subrange(i as int, j + 1).drop_last() =~= buf@.subrange(
                            i as int,
                            j as int,
                        ));
                        assert(dec_val(buf@.subrange(i as int, j + 1)) == acc * 10 + d);
                        assert(false);
                    }
                }
            }
            return None;
        }
        proof {
            assert(acc * 10 + d <= usize::MAX) by {
                assert(acc <= (usize::MAX - d) / 10);
                assert(10 * (((usize::MAX - d) as int) / 10) + ((usize::MAX - d) as int) % 10
                    == usize::MAX - d);
                assert(((usize::MAX - d) as int) % 10 >= 0);
            };
        }
        acc = acc * 10 + d;
        proof {
            assert(buf@.subrange(i as int, j + 1).drop_last() =~= buf@.subrange(
                i as int,
                j as int,
            ));
            assert(buf@.subrange(i as int, j + 1).last() == buf@[j as int]);
        }
        j += 1;
    }
    if j == i {
        proof {
            assert forall|n: nat| !can_parse_num(buf@, i as int, n) by {
                if can_parse_num(buf@, i as int, n) {
                    lemma_dec_digits_are_digits(n);
                    assert(buf@[i as int] == dec_digits(n)[0]);
                    assert(false);
                }
            }
        }
        return None;
    }
    if buf[i] == 48 && j > i + 1 {
        proof {
            assert forall|n: nat| !can_parse_num(buf@, i as int, n) by {
                if can_parse_num(buf@, i as int, n) {
                    lemma_dec_digits_are_digits(n);
                    let t = i + dec_digits(n).len();
                    if t < j as int {
                        assert(is_digit(buf@[t]));
                        assert(false);
                    }
                    if t > j as int {
                        assert(buf@[j as int] == dec_digits(n)[j - i]);
                        assert(false);
                    }
                    assert(buf@.subrange(i as int, j as int) =~= dec_digits(n));
                    assert(dec_digits(n).len() > 1);
                    lemma_dec_digits_no_leading_zero(n);
                    assert(buf@[i as int] == dec_digits(n)[0]);
                    assert(false);
                }
            }
        }
        return None;
    }
    proof {
        let sd = buf@.subrange(i as int, j as int);
        assert(sd[0] == buf@[i as int]);
        lemma_digits_canonical(sd);
        assert(buf@.subrange(i as int, j as int) == dec_digits(acc as nat));
        assert forall|n: nat| can_parse_num(buf@, i as int, n) implies j as int == i
            + dec_digits(n).len() && acc as nat == n by {
            lemma_dec_digits_are_digits(n);
            let t = i + dec_digits(n).len();
            if t < j as int {
                assert(is_digit(buf@[t]));
                assert(false);
            }
            if t > j as int {
                assert(buf@[j as int] == dec_digits(n)[j - i]);
                assert(false);
            }
            assert(buf@.subrange(i as int, j as int) =~= dec_digits(n));
            lemma_dec_val_digits(n);
        }
    }
    Some((acc, j))
}

/// Length-prefixed encoding of one byte string: decimal length, a colon, then
/// the payload bytes.
pub open spec fn enc_str(s: Seq<u8>) -> Seq<u8> {
    dec_digits(s.len()).push(COLON) + s
}

/// A sequence `b` carries the encoding of the byte string `s` at position `i`.
pub open spec fn can_parse_str(b: Seq<u8>, i: int, s: Seq<u8>) -> bool {
    &&& 0 <= i
    &&& i + enc_str(s).len() <= b.len()
    &&& b.subrange(i, i + enc_str(s).len()) == enc_str(s)
}

pub proof fn lemma_str_parts(b: Seq<u8>, i: int, s: Seq<u8>)
    requires
        can_parse_str(b, i, s),
        b.len() <= usize::MAX,
    ensures
        can_parse_num(b, i, s.len()),
        b[i + dec_digits(s.len()).len()] == COLON,
        b.subrange(
            i + dec_digits(s.len()).len() + 1,
            i + dec_digits(s.len()).len() + 1 + s.len(),
        ) == s,
{
    let dd = dec_digits(s.len());
    assert(enc_str(s)[dd.len() as int] == COLON);
    assert(b[i + dd.len()] == COLON);
    assert(b.subrange(i, i + dd.len()) =~= dd);
    assert forall|k: int| 0 <= k < s.len() implies b[i + dd.len() + 1 + k] == s[k] by {
        assert(b.subrange(i, i + enc_str(s).len())[dd.len() + 1 + k] == enc_str(s)[dd.len() + 1
            + k]);
    }
    assert(b.subrange(i + dd.len() + 1, i + dd.len() + 1 + s.len()) =~= s);
}

/// Reads one length-prefixed byte string starting at `i`.
pub fn parse_str(buf: &Vec<u8>, i: usize) -> (r: Option<(Vec<u8>, usize)>)
    requires
        i <= buf@.len(),
    ensures
        r matches Some(p) ==> i < p.1 <= buf@.len() && is_digit(buf@[i as int]),
        r matches Some(p) ==> buf@.subrange(i as int, p.1 as int) == enc_str(p.0@),
        forall|s: Seq<u8>|
            can_parse_str(buf@, i as int, s) ==> (r matches Some(p) && p.0@ == s && p.1 as int == i
                + enc_str(s).len()),
{
    let l: usize = buf.len();
    match parse_num(buf, i) {
        None => {
            proof {
                assert forall|s: Seq<u8>| !can_parse_str(buf@, i as int, s) by {
                    if can_parse_str(buf@, i as int, s) {
                        lemma_str_parts(buf@, i as int, s);
                        assert(false);
                    }
                }
            }
            None
        },
        Some((n, j)) => {
            if j >= l || buf[j] != COLON {
                proof {
                    assert forall|s: Seq<u8>| !can_parse_str(buf@, i as int, s) by {
                        if can_parse_str(buf@, i as int, s) {
                            lemma_str_parts(buf@, i as int, s);
                            assert(false);
                        }
                    }
                }
                None
            } else if n > l - (j + 1) {
                proof {
                    assert forall|s: Seq<u8>| !can_parse_str(buf@, i as int, s) by {
                        if can_parse_str(buf@, i as int, s) {
                            lemma_str_parts(buf@, i as int, s);
                            assert(false);
                        }
                    }
                }
                None
            } else {
                let payload = vstd::slice::slice_to_vec(
                    vstd::slice::slice_subrange(buf.as_slice(), j + 1, j + 1 + n),
                );
                proof {
                    assert forall|s: Seq<u8>| can_parse_str(buf@, i as int, s) implies payload@ == s
                        && j + 1 + n == i + enc_str(s).len() by {
                        lemma_str_parts(buf@, i as int, s);
                    }
                    assert(payload@.len() == n as nat);
                    assert forall|k: int| 0 <= k < j - i implies buf@[i + k] == dec_digits(
                        n as nat,
                    )[k] by {
                        assert(buf@.subrange(i as int, j as int)[k] == dec_digits(n as nat)[k]);
                    }
                    assert forall|k: int| 0 <= k < n as int implies buf@[j + 1 + k]
                        == payload@[k] by {
                        assert(buf@.subrange(j + 1, j + 1 + n)[k] == payload@[k]);
                    }
                    assert(buf@.subrange(i as int, i + enc_str(payload@).len()) =~= enc_str(
                        payload@,
                    ));
                }
                Some((payload, j + 1 + n))
            }
        },
    }
}

/// Appends the bytes of `s` to `out`.
pub fn push_bytes(out: &mut Vec<u8>, s: &Vec<u8>)
    ensures
        final(out)@ == old(out)@ + s@,
{
    let mut k: usize = 0;
    proof {
        assert(out@ =~= old(out)@ + s@.take(0));
    }
    while k < s.len()
        invariant
            0 <= k <= s@.len(),
            out@ == old(out)@ + s@.take(k as int),
        decreases s@.len() - k,
    {
        out.push(s[k]);
        proof {
            assert(out@ =~= old(out)@ + s@.take(k + 1));
        }
        k += 1;
    }
    proof {
        assert(s@.take(s@.len() as int) =~= s@);
    }
}

/// Appends the decimal digits of `n` to `out`.
pub fn push_dec(out: &mut Vec<u8>, n: usize)
    ensures
        final(out)@ == old(out)@ + dec_digits(n as nat),
    decreases n,
{
    if n < 10 {
        out.push(48 + (n as u8));
        proof {
            assert(out@ =~= old(out)@ + dec_digits(n as nat));
        }
    } else {
        push_dec(out, n / 10);
        out.push(48 + ((n % 10) as u8));
        proof {
            assert(out@ =~= old(out)@ + dec_digits(n as nat));
        }
    }
}

/// Appends the length-prefixed encoding of `s` to `out`.
pub fn push_enc_str(out: &mut Vec<u8>, s: &Vec<u8>)
    ensures
        final(out)@ == old(out)@ + enc_str(s@),
{
    push_dec(out, s.len());
    out.push(COLON);
    push_bytes(out, s);
    proof {
        assert(out@ =~= old(out)@ + enc_str(s@));
    }
}

pub proof fn lemma_split_prefix(b: Seq<u8>, i: int, x: Seq<u8>, y: Seq<u8>)
    requires
        0 <= i,
        i + x.len() + y.len() <= b.len(),
        b.subrange(i, i + x.len() + y.len()) == x + y,
    ensures
        b.subrange(i, i + x.len()) == x,
        b.subrange(i + x.len(), i + x.len() + y.len()) == y,
{
    let n = x.len() as int;
    let m = y.len() as int;
    let sub = b.subrange(i, i + n + m);
    assert((x + y).len() == n + m);
    assert forall|k: int| 0 <= k < n implies b[i + k] == x[k] by {
        assert(sub[k] == (x + y)[k]);
        assert(sub[k] == b[i + k]);
        assert((x + y)[k] == x[k]);
    }
    assert forall|k: int| 0 <= k < m implies b[i + n + k] == y[k] by {
        assert(sub[n + k] == (x + y)[n + k]);
        assert(sub[n + k] == b[i + n + k]);
        assert((x + y)[n + k] == y[k]);
    }
    assert(b.subrange(i, i + n) =~= x);
    assert(b.subrange(i + n, i + n + m) =~= y);
}

/// The comma-separated encodings of the listed byte strings.
pub open spec fn enc_items(l: Seq<Seq<u8>>) -> Seq<u8>
    decreases l.len(),
{
    if l.len() == 0 {
        Seq::empty()
    } else if l.len() == 1 {
        enc_str(l[0])
    } else {
        enc_str(l[0]).push(COMMA) + enc_items(l.drop_first())
    }
}

/// A bracketed list of length-prefixed byte strings.
pub open spec fn enc_strs(l: Seq<Seq<u8>>) -> Seq<u8> {
    seq![LBRACK] + enc_items(l).push(RBRACK)
}

/// A sequence `b` carries, at position `i`, the item encodings of `l`
/// followed by the closing bracket.
pub open spec fn can_parse_items(b: Seq<u8>, i: int, l: Seq<Seq<u8>>) -> bool {
    &&& 0 <= i
    &&& i + enc_items(l).len() + 1 <= b.len()
    &&& b.subrange(i, i + enc_items(l).len() + 1) == enc_items(l).push(RBRACK)
}

/// A sequence `b` carries the full list encoding of `l` at position `i`.
pub open spec fn can_parse_strs(b: Seq<u8>, i: int, l: Seq<Seq<u8>>) -> bool {
    &&& 0 <= i
    &&& i + enc_strs(l).len() <= b.len()
    &&& b.subrange(i, i + enc_strs(l).len()) == enc_strs(l)
}

pub proof fn lemma_items_first(b: Seq<u8>, i: int, l: Seq<Seq<u8>>)
    requires
        can_parse_items(b, i, l),
        l.len() >= 1,
    ensures
        can_parse_str(b, i, l[0]),
        l.len() == 1 ==> b[i + enc_str(l[0]).len()] == RBRACK,
        l.len() > 1 ==> b[i + enc_str(l[0]).len()] == COMMA && can_parse_items(
            b,
            i + enc_str(l[0]).len() + 1,
            l.drop_first(),
        ),
{
    assert(enc_items(l).push(RBRACK) =~= enc_items(l) + seq![RBRACK]);
    lemma_split_prefix(b, i, enc_items(l), seq![RBRACK]);
    assert(b[i + enc_items(l).len()] == b.subrange(
        i + enc_items(l).len(),
        i + enc_items(l).len() + 1,
    )[0]);
    if l.len() == 1 {
        assert(b.subrange(i, i + enc_str(l[0]).len()) == enc_str(l[0]));
    } else {
        let x = enc_str(l[0]);
        let rest = enc_items(l.drop_first());
        assert(enc_items(l) =~= x + (seq![COMMA] + rest));
        lemma_split_prefix(b, i, x, seq![COMMA] + rest);
        lemma_split_prefix(b, i + x.len(), seq![COMMA], rest);
        assert(b[i + x.len()] == b.subrange(i + x.len(), i + x.len() + 1)[0]);
        let j = i + x.len() + 1;
        assert forall|k: int| 0 <= k < rest.len() implies b[j + k] == rest[k] by {
            assert(b.subrange(j, j + rest.len())[k] == rest[k]);
        }
        assert(b.subrange(j, j + rest.len() + 1) =~= rest.push(RBRACK));
    }
}

/// Reads list items up to and including the closing bracket, starting just
/// past the opening bracket.
pub fn parse_items(buf: &Vec<u8>, i: usize) -> (r: Option<(Vec<Vec<u8>>, usize)>)
    requires
        i <= buf@.len(),
    ensures
        r matches Some(p) ==> i < p.1 <= buf@.len(),
        r matches Some(p) ==> buf@.subrange(i as int, p.1 as int) == enc_items(bytes_view(p.0@))
            + seq![RBRACK],
        forall|l: Seq<Seq<u8>>|
            can_parse_items(buf@, i as int, l) ==> (r matches Some(p) && bytes_view(p.0@) == l
                && p.1 as int == i + enc_items(l).len() + 1),
    decreases buf@.len() - i,
{
    let l_total: usize = buf.len();
    if i >= l_total {
        return None;
    }
    if buf[i] == RBRACK {
        proof {
            assert forall|l: Seq<Seq<u8>>| can_parse_items(buf@, i as int, l) implies l.len() == 0
                && l == Seq::<Seq<u8>>::empty() by {
                if l.len() >= 1 {
                    lemma_items_first(buf@, i as int, l);
                    lemma_str_parts(buf@, i as int, l[0]);
                    lemma_dec_digits_are_digits(l[0].len());
                    assert(buf@[i as int] == enc_str(l[0])[0]);
                    assert(false);
                }
                assert(l =~= Seq::<Seq<u8>>::empty());
            }
        }
        let v: Vec<Vec<u8>> = Vec::new();
        proof {
            assert(bytes_view(v@) =~= Seq::<Seq<u8>>::empty());
            assert(buf@.subrange(i as int, i + 1) =~= enc_items(bytes_view(v@)) + seq![RBRACK]);
        }
        return Some((v, i + 1));
    }
    match parse_str(buf, i) {
        None => {
            proof {
                assert forall|l: Seq<Seq<u8>>| !can_parse_items(buf@, i as int, l) by {
                    if can_parse_items(buf@, i as int, l) {
                        if l.len() == 0 {
                            assert(buf@[i as int] == enc_items(l).push(RBRACK)[0]);
                            assert(false);
                        } else {
                            lemma_items_first(buf@, i as int, l);
                            assert(false);
                        }
                    }
                }
            }
            None
        },
        Some((s, j)) => {
            proof {
                assert forall|l: Seq<Seq<u8>>| can_parse_items(buf@, i as int, l) implies l.len()
                    >= 1 && s@ == l[0] && j as int == i + enc_str(l[0]).len() by {
                    if l.len() == 0 {
                        assert(buf@[i as int] == enc_items(l).push(RBRACK)[0]);
                        assert(false);
                    }
                    lemma_items_first(buf@, i as int, l);
                }
            }
            if j < l_total && buf[j] == COMMA {
                match parse_items(buf, j + 1) {
                    None => {
                        proof {
                            assert forall|l: Seq<Seq<u8>>| !can_parse_items(buf@, i as int, l) by {
                                if can_parse_items(buf@, i as int, l) {
                                    if l.len() == 0 {
                                        assert(buf@[i as int] == enc_items(l).push(RBRACK)[0]);
                                        assert(false);
                                    }
                                    lemma_items_first(buf@, i as int, l);
                                    assert(l.len() > 1);
                                    assert(false);
                                }
                            }
                        }
                        None
                    },
                    Some((mut rest, k)) => {
                        if rest.is_empty() {
                            proof {
                                assert forall|l: Seq<Seq<u8>>| !can_parse_items(
                                    buf@,
                                    i as int,
                                    l,
                                ) by {
                                    if can_parse_items(buf@, i as int, l) {
                                        if l.len() == 0 {
                                            assert(buf@[i as int] == enc_items(l).push(
                                                RBRACK,
                                            )[0]);
                                            assert(false);
                                        }
                                        lemma_items_first(buf@, i as int, l);
                                        assert(l.len() > 1);
                                        assert(bytes_view(rest@) == l.drop_first());
                                        assert(false);
                                    }
                                }
                            }
                            return None;
                        }
                        proof {
                            let li = rest@.insert(0, s);
                            assert(bytes_view(li)[0] == s@);
                            assert(bytes_view(li).drop_first() =~= bytes_view(rest@));
                            assert(enc_items(bytes_view(li)) == enc_str(s@).push(COMMA)
                                + enc_items(bytes_view(rest@)));
                            assert(j - i == enc_str(s@).len());
                            assert(buf@[j as int] == COMMA);
                            assert(buf@.subrange(i as int, k as int) =~= buf@.subrange(
                                i as int,
                                j as int,
                            ) + seq![COMMA] + buf@.subrange(j + 1, k as int));
                            assert(enc_str(s@) + seq![COMMA] + (enc_items(bytes_view(rest@))
                                + seq![RBRACK]) =~= enc_items(bytes_view(li)) + seq![RBRACK]);
                            assert(buf@.subrange(i as int, k as int) == enc_items(bytes_view(li))
                                + seq![RBRACK]);
                            assert forall|l: Seq<Seq<u8>>| can_parse_items(buf@, i as int, l)
                                implies bytes_view(rest@.insert(0, s)) == l && k as int == i
                                + enc_items(l).len() + 1 by {
                                if l.len() == 0 {
                                    assert(buf@[i as int] == enc_items(l).push(RBRACK)[0]);
                                    assert(false);
                                }
                                lemma_items_first(buf@, i as int, l);
                                assert(can_parse_str(buf@, i as int, l[0]));
                                assert(s@ == l[0]);
                                assert(j as int == i + enc_str(l[0]).len());
                                assert(l.len() > 1);
                                assert(bytes_view(rest@) == l.drop_first());
                                let li = rest@.insert(0, s);
                                assert forall|m: int| 0 <= m < li.len() implies bytes_view(
                                    li,
                                )[m] == l[m] by {
                                    if m == 0 {
                                        assert(li[0] == s);
                                    } else {
                                        assert(li[m] == rest@[m - 1]);
                                        assert(bytes_view(rest@)[m - 1] == l.drop_first()[m
                                            - 1]);
                                    }
                                }
                                assert(bytes_view(li) =~= l);
                            }
                        }
                        rest.insert(0, s);
                        Some((rest, k))
                    },
                }
            } else if j < l_total && buf[j] == RBRACK {
                let mut v: Vec<Vec<u8>> = Vec::new();
                v.push(s);
                proof {
                    assert forall|l: Seq<Seq<u8>>| can_parse_items(buf@, i as int, l) implies
                        bytes_view(v@) == l && j + 1 as int == i + enc_items(l).len() + 1 by {
                        if l.len() == 0 {
                            assert(buf@[i as int] == enc_items(l).push(RBRACK)[0]);
                            assert(false);
                        }
                        lemma_items_first(buf@, i as int, l);
                        assert(can_parse_str(buf@, i as int, l[0]));
                        assert(s@ == l[0]);
                        assert(j as int == i + enc_str(l[0]).len());
                        assert(l.len() == 1);
                        assert(bytes_view(v@) =~= l);
                    }
                }
                Some((v, j + 1))
            } else {
                proof {
                    assert forall|l: Seq<Seq<u8>>| !can_parse_items(buf@, i as int, l) by {
                        if can_parse_items(buf@, i as int, l) {
                            if l.len() == 0 {
                                assert(buf@[i as int] == enc_items(l).push(RBRACK)[0]);
                                assert(false);
                            }
                            lemma_items_first(buf@, i as int, l);
                            assert(false);
                        }
                    }
                }
                None
            }
        },
    }
}

pub proof fn lemma_strs_parts(b: Seq<u8>, i: int, l: Seq<Seq<u8>>)
    requires
        can_parse_strs(b, i, l),
    ensures
        b[i] == LBRACK,
        can_parse_items(b, i + 1, l),
{
    lemma_split_prefix(b, i, seq![LBRACK], enc_items(l).push(RBRACK));
    assert(b[i] == b.subrange(i, i + 1)[0]);
}

/// Reads one bracketed list of byte strings starting at `i`.
pub fn parse_strs(buf: &Vec<u8>, i: usize) -> (r: Option<(Vec<Vec<u8>>, usize)>)
    requires
        i <= buf@.len(),
    ensures
        r matches Some(p) ==> i < p.1 <= buf@.len(),
        r matches Some(p) ==> buf@.subrange(i as int, p.1 as int) == enc_strs(bytes_view(p.0@)),
        forall|l: Seq<Seq<u8>>|
            can_parse_strs(buf@, i as int, l) ==> (r matches Some(p) && bytes_view(p.0@) == l
                && p.1 as int == i + enc_strs(l).len()),
{
    let l_total: usize = buf.len();
    if i < l_total && buf[i] == LBRACK {
        match parse_items(buf, i + 1) {
            None => {
                proof {
                    assert forall|l: Seq<Seq<u8>>| !can_parse_strs(buf@, i as int, l) by {
                        if can_parse_strs(buf@, i as int, l) {
                            lemma_strs_parts(buf@, i as int, l);
                            assert(false);
                        }
                    }
                }
                None
            },
            Some((v, j)) => {
                proof {
                    assert forall|l: Seq<Seq<u8>>| can_parse_strs(buf@, i as int, l) implies
                        bytes_view(v@) == l && j as int == i + enc_strs(l).len() by {
                        lemma_strs_parts(buf@, i as int, l);
                    }
                    assert(buf@.subrange(i as int, j as int) =~= seq![LBRACK] + buf@.subrange(
                        i + 1,
                        j as int,
                    ));
                    assert(seq![LBRACK] + (enc_items(bytes_view(v@)) + seq![RBRACK]) =~= enc_strs(
                        bytes_view(v@),
                    ));
                }
                Some((v, j))
            },
        }
    } else {
        proof {
            assert forall|l: Seq<Seq<u8>>| !can_parse_strs(buf@, i as int, l) by {
                if can_parse_strs(buf@, i as int, l) {
                    lemma_strs_parts(buf@, i as int, l);
                    assert(false);
                }
            }
        }
        None
    }
}

/// Appends the item encodings of `l` from index `k` on.
fn push_enc_items_from(out: &mut Vec<u8>, l: &Vec<Vec<u8>>, k: usize)
    requires
        k <= l@.len(),
    ensures
        final(out)@ == old(out)@ + enc_items(bytes_view(l@).skip(k as int)),
    decreases l@.len() - k,
{
    if k == l.len() {
        proof {
            assert(bytes_view(l@).skip(k as int) =~= Seq::<Seq<u8>>::empty());
            assert(out@ =~= old(out)@ + enc_items(bytes_view(l@).skip(k as int)));
        }
    } else {
        push_enc_str(out, &l[k]);
        proof {
            assert(bytes_view(l@).skip(k as int)[0] == l@[k as int]@);
        }
        if k + 1 == l.len() {
            proof {
                assert(bytes_view(l@).skip(k as int).len() == 1);
                assert(out@ =~= old(out)@ + enc_items(bytes_view(l@).skip(k as int)));
            }
        } else {
            out.push(COMMA);
            let ghost mid = out@;
            push_enc_items_from(out, l, k + 1);
            proof {
                assert(bytes_view(l@).skip(k as int).drop_first() =~= bytes_view(l@).skip(
                    k + 1,
                ));
                assert(out@ =~= old(out)@ + enc_items(bytes_view(l@).skip(k as int)));
            }
        }
    }
}

/// Appends the bracketed list encoding of `l` to `out`.
pub fn push_enc_strs(out: &mut Vec<u8>, l: &Vec<Vec<u8>>)
    ensures
        final(out)@ == old(out)@ + enc_strs(bytes_view(l@)),
{
    out.push(LBRACK);
    push_enc_items_from(out, l, 0);
    out.push(RBRACK);
    proof {
        assert(bytes_view(l@).skip(0) =~= bytes_view(l@));
        assert(out@ =~= old(out)@ + enc_strs(bytes_view(l@)));
    }
}

/// The field tag `name:`.
pub open spec fn tag_name() -> Seq<u8> {
    seq![110u8, 97u8, 109u8, 101u8, 58u8]
}

/// The field tag `prefix:`.
pub open spec fn tag_prefix() -> Seq<u8> {
    seq![112u8, 114u8, 101u8, 102u8, 105u8, 120u8, 58u8]
}

/// The field tag `field:`.
pub open spec fn tag_field() -> Seq<u8> {
    seq![102u8, 105u8, 101u8, 108u8, 100u8, 58u8]
}

/// The field tag `states:`.
pub open spec fn tag_states() -> Seq<u8> {
    seq![115u8, 116u8, 97u8, 116u8, 101u8, 115u8, 58u8]
}

/// The field tag `events:`.
pub open spec fn tag_events() -> Seq<u8> {
    seq![101u8, 118u8, 101u8, 110u8, 116u8, 115u8, 58u8]
}

/// The field tag `from:`.
pub open spec fn tag_from() -> Seq<u8> {
    seq![102u8, 114u8, 111u8, 109u8, 58u8]
}

/// The field tag `to:`.
pub open spec fn tag_to() -> Seq<u8> {
    seq![116u8, 111u8, 58u8]
}

fn tag_name_v() -> (r: Vec<u8>)
    ensures
        r@ == tag_name(),
{
    let t: Vec<u8> = vec![110u8, 97u8, 109u8, 101u8, 58u8];
    proof {
        assert(t@ =~= tag_name());
    }
    t
}

fn tag_prefix_v() -> (r: Vec<u8>)
    ensures
        r@ == tag_prefix(),
{
    let t: Vec<u8> = vec![112u8, 114u8, 101u8, 102u8, 105u8, 120u8, 58u8];
    proof {
        assert(t@ =~= tag_prefix());
    }
    t
}

fn tag_field_v() -> (r: Vec<u8>)
    ensures
        r@ == tag_field(),
{
    let t: Vec<u8> = vec![102u8, 105u8, 101u8, 108u8, 100u8, 58u8];
    proof {
        assert(t@ =~= tag_field());
    }
    t
}

fn tag_states_v() -> (r: Vec<u8>)
    ensures
        r@ == tag_states(),
{
    let t: Vec<u8> = vec![115u8, 116u8, 97u8, 116u8, 101u8, 115u8, 58u8];
    proof {
        assert(t@ =~= tag_states());
    }
    t
}

fn tag_events_v() -> (r: Vec<u8>)
    ensures
        r@ == tag_events(),
{
    let t: Vec<u8> = vec![101u8, 118u8, 101u8, 110u8, 116u8, 115u8, 58u8];
    proof {
        assert(t@ =~= tag_events());
    }
    t
}

fn tag_from_v() -> (r: Vec<u8>)
    ensures
        r@ == tag_from(),
{
    let t: Vec<u8> = vec![102u8, 114u8, 111u8, 109u8, 58u8];
    proof {
        assert(t@ =~= tag_from());
    }
    t
}

fn tag_to_v() -> (r: Vec<u8>)
    ensures
        r@ == tag_to(),
{
    let t: Vec<u8> = vec![116u8, 111u8, 58u8];
    proof {
        assert(t@ =~= tag_to());
    }
    t
}

/// Checks that the byte `c` stands at position `i`.
fn expect_byte(buf: &Vec<u8>, i: usize, c: u8) -> (r: Option<usize>)
    requires
        i <= buf@.len(),
    ensures
        r matches Some(j) ==> j as int == i + 1,
        (r is Some) <==> (i < buf@.len() && buf@[i as int] == c),
{
    if i < buf.len() && buf[i] == c {
        Some(i + 1)
    } else {
        None
    }
}

/// Checks that the bytes of `t` stand at position `i`.
#[verifier::loop_isolation(false)]
fn expect_bytes(buf: &Vec<u8>, i: usize, t: &Vec<u8>) -> (r: Option<usize>)
    requires
        i <= buf@.len(),
    ensures
        r matches Some(j) ==> j as int == i + t@.len(),
        (r is Some) <==> (i + t@.len() <= buf@.len() && buf@.subrange(i as int, i + t@.len())
            == t@),
{
    let lt: usize = t.len();
    let lb: usize = buf.len();
    if lt > lb - i {
        return None;
    }
    let mut k: usize = 0;
    while k < lt
        invariant
            0 <= k <= t@.len(),
            i + t@.len() <= buf@.len(),
            forall|m: int| 0 <= m < k ==> buf@[i + m] == t@[m],
        decreases t@.len() - k,
    {
        if buf[i + k] != t[k] {
            proof {
                assert(buf@.subrange(i as int, i + t@.len())[k as int] == buf@[i + k]);
            }
            return None;
        }
        k += 1;
    }
    proof {
        assert(buf@.subrange(i as int, i + t@.len()) =~= t@);
    }
    Some(i + lt)
}

/// The encoding of one event: a braced record with tagged fields.
pub open spec fn enc_event(e: EventView) -> Seq<u8> {
    seq![LBRACE] + (tag_name() + (enc_str(e.name) + (seq![COMMA] + (tag_from() + (enc_strs(e.from)
        + (seq![COMMA] + (tag_to() + (enc_str(e.to) + seq![RBRACE]))))))))
}

/// A sequence `b` carries the encoding of the event `e` at position `i`.
pub open spec fn can_parse_event(b: Seq<u8>, i: int, e: EventView) -> bool {
    &&& 0 <= i
    &&& i + enc_event(e).len() <= b.len()
    &&& b.subrange(i, i + enc_event(e).len()) == enc_event(e)
}

proof fn lemma_event_parts(b: Seq<u8>, i: int, e: EventView)
    requires
        can_parse_event(b, i, e),
    ensures
        b[i] == LBRACE,
        b.subrange(i + 1, i + 1 + tag_name().len()) == tag_name(),
        can_parse_str(b, i + 1 + tag_name().len(), e.name),
        b[i + 1 + tag_name().len() + enc_str(e.name).len()] == COMMA,
        b.subrange(
            i + 2 + tag_name().len() + enc_str(e.name).len(),
            i + 2 + tag_name().len() + enc_str(e.name).len() + tag_from().len(),
        ) == tag_from(),
        can_parse_strs(b, i + 2 + tag_name().len() + enc_str(e.name).len() + tag_from().len(), e.from),
        b[i + 2 + tag_name().len() + enc_str(e.name).len() + tag_from().len() + enc_strs(
            e.from,
        ).len()] == COMMA,
        b.subrange(
            i + 3 + tag_name().len() + enc_str(e.name).len() + tag_from().len() + enc_strs(
                e.from,
            ).len(),
            i + 3 + tag_name().len() + enc_str(e.name).len() + tag_from().len() + enc_strs(
                e.from,
            ).len() + tag_to().len(),
        ) == tag_to(),
        can_parse_str(
            b,
            i + 3 + tag_name().len() + enc_str(e.name).len() + tag_from().len() + enc_strs(
                e.from,
            ).len() + tag_to().len(),
            e.to,
        ),
        b[i + 3 + tag_name().len() + enc_str(e.name).len() + tag_from().len() + enc_strs(
            e.from,
        ).len() + tag_to().len() + enc_str(e.to).len()] == RBRACE,
        i + enc_event(e).len() == i + 4 + tag_name().len() + enc_str(e.name).len()
            + tag_from().len() + enc_strs(e.from).len() + tag_to().len() + enc_str(e.to).len(),
{
    let r0 = tag_name() + (enc_str(e.name) + (seq![COMMA] + (tag_from() + (enc_strs(e.from) + (
    seq![COMMA] + (tag_to() + (enc_str(e.to) + seq![RBRACE])))))));
    lemma_split_prefix(b, i, seq![LBRACE], r0);
    assert(b[i] == b.subrange(i, i + 1)[0]);
    let i1 = i + 1;
    let r1 = enc_str(e.name) + (seq![COMMA] + (tag_from() + (enc_strs(e.from) + (seq![COMMA] + (
    tag_to() + (enc_str(e.to) + seq![RBRACE]))))));
    lemma_split_prefix(b, i1, tag_name(), r1);
    let i2 = i1 + tag_name().len();
    let r2 = seq![COMMA] + (tag_from() + (enc_strs(e.from) + (seq![COMMA] + (tag_to() + (enc_str(
        e.to,
    ) + seq![RBRACE])))));
    lemma_split_prefix(b, i2, enc_str(e.name), r2);
    let i3 = i2 + enc_str(e.name).len();
    let r3 = tag_from() + (enc_strs(e.from) + (seq![COMMA] + (tag_to() + (enc_str(e.to)
        + seq![RBRACE]))));
    lemma_split_prefix(b, i3, seq![COMMA], r3);
    assert(b[i3] == b.subrange(i3, i3 + 1)[0]);
    let i4 = i3 + 1;
    let r4 = enc_strs(e.from) + (seq![COMMA] + (tag_to() + (enc_str(e.to) + seq![RBRACE])));
    lemma_split_prefix(b, i4, tag_from(), r4);
    let i5 = i4 + tag_from().len();
    let r5 = seq![COMMA] + (tag_to() + (enc_str(e.to) + seq![RBRACE]));
    lemma_split_prefix(b, i5, enc_strs(e.from), r5);
    let i6 = i5 + enc_strs(e.from).len();
    let r6 = tag_to() + (enc_str(e.to) + seq![RBRACE]);
    lemma_split_prefix(b, i6, seq![COMMA], r6);
    assert(b[i6] == b.subrange(i6, i6 + 1)[0]);
    let i7 = i6 + 1;
    let r7 = enc_str(e.to) + seq![RBRACE];
    lemma_split_prefix(b, i7, tag_to(), r7);
    let i8 = i7 + tag_to().len();
    lemma_split_prefix(b, i8, enc_str(e.to), seq![RBRACE]);
    let i9 = i8 + enc_str(e.to).len();
    assert(b[i9] == b.subrange(i9, i9 + 1)[0]);
}

proof fn lemma_event_assemble(
    b: Seq<u8>,
    i: int,
    j1: int,
    j2: int,
    j4: int,
    j5: int,
    j7: int,
    j8: int,
    e: EventView,
)
    requires
        0 <= i,
        i + 1 <= j1 <= j2 < j4 <= j5 < j7 <= j8 < b.len(),
        b[i] == LBRACE,
        b.subrange(i + 1, j1) == tag_name(),
        b.subrange(j1, j2) == enc_str(e.name),
        b[j2] == COMMA,
        b.subrange(j2 + 1, j4) == tag_from(),
        b.subrange(j4, j5) == enc_strs(e.from),
        b[j5] == COMMA,
        b.subrange(j5 + 1, j7) == tag_to(),
        b.subrange(j7, j8) == enc_str(e.to),
        b[j8] == RBRACE,
    ensures
        b.subrange(i, j8 + 1) == enc_event(e),
{
    assert(b.subrange(i, j8 + 1) =~= seq![LBRACE] + b.subrange(i + 1, j1) + b.subrange(j1, j2)
        + seq![COMMA] + b.subrange(j2 + 1, j4) + b.subrange(j4, j5) + seq![COMMA] + b.subrange(
        j5 + 1,
        j7,
    ) + b.subrange(j7, j8) + seq![RBRACE]);
    assert(seq![LBRACE] + tag_name() + enc_str(e.name) + seq![COMMA] + tag_from() + enc_strs(
        e.from,
    ) + seq![COMMA] + tag_to() + enc_str(e.to) + seq![RBRACE] =~= enc_event(e));
}

/// Reads one braced event record starting at `i`.
#[verifier::rlimit(100)]
pub fn parse_event(buf: &Vec<u8>, i: usize) -> (r: Option<(Event, usize)>)
    requires
        i <= buf@.len(),
    ensures
        r matches Some(p) ==> i < p.1 <= buf@.len() && buf@[i as int] == LBRACE,
        r matches Some(p) ==> buf@.subrange(i as int, p.1 as int) == enc_event(p.0@),
        forall|e: EventView|
            can_parse_event(buf@, i as int, e) ==> (r matches Some(p) && p.0@ == e && p.1 as int
                == i + enc_event(e).len()),
{
    let j0 = match expect_byte(buf, i, LBRACE) {
        None => {
            proof {
                assert forall|e: EventView| !can_parse_event(buf@, i as int, e) by {
                    if can_parse_event(buf@, i as int, e) {
                        lemma_event_parts(buf@, i as int, e);
                        assert(false);
                    }
                }
            }
            return None;
        },
        Some(j) => j,
    };
    let j1 = match expect_bytes(buf, j0, &tag_name_v()) {
        None => {
            proof {
                assert forall|e: EventView| !can_parse_event(buf@, i as int, e) by {
                    if can_parse_event(buf@, i as int, e) {
                        lemma_event_parts(buf@, i as int, e);
                        assert(false);
                    }
                }
            }
            return None;
        },
        Some(j) => j,
    };
    let (name, j2) = match parse_str(buf, j1) {
        None => {
            proof {
                assert forall|e: EventView| !can_parse_event(buf@, i as int, e) by {
                    if can_parse_event(buf@, i as int, e) {
                        lemma_event_parts(buf@, i as int, e);
                        assert(false);
                    }
                }
            }
            return None;
        },
        Some(p) => p,
    };
    let j3 = match expect_byte(buf, j2, COMMA) {
        None => {
            proof {
                assert forall|e: EventView| !can_parse_event(buf@, i as int, e) by {
                    if can_parse_event(buf@, i as int, e) {
                        lemma_event_parts(buf@, i as int, e);
                        assert(false);
                    }
                }
            }
            return None;
        },
        Some(j) => j,
    };
    let j4 = match expect_bytes(buf, j3, &tag_from_v()) {
        None => {
            proof {
                assert forall|e: EventView| !can_parse_event(buf@, i as int, e) by {
                    if can_parse_event(buf@, i as int, e) {
                        lemma_event_parts(buf@, i as int, e);
                        assert(false);
                    }
                }
            }
            return None;
        },
        Some(j) => j,
    };
    let (from, j5) = match parse_strs(buf, j4) {
        None => {
            proof {
                assert forall|e: EventView| !can_parse_event(buf@, i as int, e) by {
                    if can_parse_event(buf@, i as int, e) {
                        lemma_event_parts(buf@, i as int, e);
                        assert(false);
                    }
                }
            }
            return None;
        },
        Some(p) => p,
    };
    let j6 = match expect_byte(buf, j5, COMMA) {
        None => {
            proof {
                assert forall|e: EventView| !can_parse_event(buf@, i as int, e) by {
                    if can_parse_event(buf@, i as int, e) {
                        lemma_event_parts(buf@, i as int, e);
                        assert(false);
                    }
                }
            }
            return None;
        },
        Some(j) => j,
    };
    let j7 = match expect_bytes(buf, j6, &tag_to_v()) {
        None => {
            proof {
                assert forall|e: EventView| !can_parse_event(buf@, i as int, e) by {
                    if can_parse_event(buf@, i as int, e) {
                        lemma_event_parts(buf@, i as int, e);
                        assert(false);
                    }
                }
            }
            return None;
        },
        Some(j) => j,
    };
    let (to, j8) = match parse_str(buf, j7) {
        None => {
            proof {
                assert forall|e: EventView| !can_parse_event(buf@, i as int, e) by {
                    if can_parse_event(buf@, i as int, e) {
                        lemma_event_parts(buf@, i as int, e);
                        assert(false);
                    }
                }
            }
            return None;
        },
        Some(p) => p,
    };
    let j9 = match expect_byte(buf, j8, RBRACE) {
        None => {
            proof {
                assert forall|e: EventView| !can_parse_event(buf@, i as int, e) by {
                    if can_parse_event(buf@, i as int, e) {
                        lemma_event_parts(buf@, i as int, e);
                        assert(false);
                    }
                }
            }
            return None;
        },
        Some(j) => j,
    };
    let ev = Event { name, from, to };
    proof {
        assert forall|e: EventView| can_parse_event(buf@, i as int, e) implies ev@ == e
            && j9 as int == i + enc_event(e).len() by {
            lemma_event_parts(buf@, i as int, e);
            assert(ev@ =~= e);
        }
        lemma_event_assemble(
            buf@,
            i as int,
            j1 as int,
            j2 as int,
            j4 as int,
            j5 as int,
            j7 as int,
            j8 as int,
            ev@,
        );
    }
    Some((ev, j9))
}

/// The comma-separated encodings of the listed events.
pub open spec fn enc_eitems(l: Seq<EventView>) -> Seq<u8>
    decreases l.len(),
{
    if l.len() == 0 {
        Seq::empty()
    } else if l.len() == 1 {
        enc_event(l[0])
    } else {
        enc_event(l[0]).push(COMMA) + enc_eitems(l.drop_first())
    }
}

/// A bracketed list of event records.
pub open spec fn enc_events(l: Seq<EventView>) -> Seq<u8> {
    seq![LBRACK] + enc_eitems(l).push(RBRACK)
}

/// A sequence `b` carries, at position `i`, the event encodings of `l`
/// followed by the closing bracket.
pub open spec fn can_parse_eitems(b: Seq<u8>, i: int, l: Seq<EventView>) -> bool {
    &&& 0 <= i
    &&& i + enc_eitems(l).len() + 1 <= b.len()
    &&& b.subrange(i, i + enc_eitems(l).len() + 1) == enc_eitems(l).push(RBRACK)
}

/// A sequence `b` carries the full event-list encoding of `l` at position `i`.
pub open spec fn can_parse_events(b: Seq<u8>, i: int, l: Seq<EventView>) -> bool {
    &&& 0 <= i
    &&& i + enc_events(l).len() <= b.len()
    &&& b.subrange(i, i + enc_events(l).len()) == enc_events(l)
}

proof fn lemma_eitems_first(b: Seq<u8>, i: int, l: Seq<EventView>)
    requires
        can_parse_eitems(b, i, l),
        l.len() >= 1,
    ensures
        can_parse_event(b, i, l[0]),
        l.len() == 1 ==> b[i + enc_event(l[0]).len()] == RBRACK,
        l.len() > 1 ==> b[i + enc_event(l[0]).len()] == COMMA && can_parse_eitems(
            b,
            i + enc_event(l[0]).len() + 1,
            l.drop_first(),
        ),
{
    assert(enc_eitems(l).push(RBRACK) =~= enc_eitems(l) + seq![RBRACK]);
    lemma_split_prefix(b, i, enc_eitems(l), seq![RBRACK]);
    assert(b[i + enc_eitems(l).len()] == b.subrange(
        i + enc_eitems(l).len(),
        i + enc_eitems(l).len() + 1,
    )[0]);
    if l.len() == 1 {
        assert(b.subrange(i, i + enc_event(l[0]).len()) == enc_event(l[0]));
    } else {
        let x = enc_event(l[0]);
        let rest = enc_eitems(l.drop_first());
        assert(enc_eitems(l) =~= x + (seq![COMMA] + rest));
        lemma_split_prefix(b, i, x, seq![COMMA] + rest);
        lemma_split_prefix(b, i + x.len(), seq![COMMA], rest);
        assert(b[i + x.len()] == b.subrange(i + x.len(), i + x.len() + 1)[0]);
        let j = i + x.len() + 1;
        assert forall|k: int| 0 <= k < rest.len() implies b[j + k] == rest[k] by {
            assert(b.subrange(j, j + rest.len())[k] == rest[k]);
        }
        assert(b.subrange(j, j + rest.len() + 1) =~= rest.push(RBRACK));
    }
}

/// Reads event records up to and including the closing bracket, starting just
/// past the opening bracket.
#[verifier::rlimit(100)]
pub fn parse_eitems(buf: &Vec<u8>, i: usize) -> (r: Option<(Vec<Event>, usize)>)
    requires
        i <= buf@.len(),
    ensures
        r matches Some(p) ==> i < p.1 <= buf@.len(),
        r matches Some(p) ==> buf@.subrange(i as int, p.1 as int) == enc_eitems(events_view(p.0@))
            + seq![RBRACK],
        forall|l: Seq<EventView>|
            can_parse_eitems(buf@, i as int, l) ==> (r matches Some(p) && events_view(p.0@) == l
                && p.1 as int == i + enc_eitems(l).len() + 1),
    decreases buf@.len() - i,
{
    let l_total: usize = buf.len();
    if i >= l_total {
        return None;
    }
    if buf[i] == RBRACK {
        proof {
            assert forall|l: Seq<EventView>| can_parse_eitems(buf@, i as int, l) implies l.len()
                == 0 && l == Seq::<EventView>::empty() by {
                if l.len() >= 1 {
                    lemma_eitems_first(buf@, i as int, l);
                    lemma_event_parts(buf@, i as int, l[0]);
                    assert(false);
                }
                assert(l =~= Seq::<EventView>::empty());
            }
        }
        let v: Vec<Event> = Vec::new();
        proof {
            assert(events_view(v@) =~= Seq::<EventView>::empty());
            assert(buf@.subrange(i as int, i + 1) =~= enc_eitems(events_view(v@)) + seq![RBRACK]);
        }
        return Some((v, i + 1));
    }
    match parse_event(buf, i) {
        None => {
            proof {
                assert forall|l: Seq<EventView>| !can_parse_eitems(buf@, i as int, l) by {
                    if can_parse_eitems(buf@, i as int, l) {
                        if l.len() == 0 {
                            assert(buf@[i as int] == enc_eitems(l).push(RBRACK)[0]);
                            assert(false);
                        } else {
                            lemma_eitems_first(buf@, i as int, l);
                            assert(false);
                        }
                    }
                }
            }
            None
        },
        Some((ev, j)) => {
            proof {
                assert forall|l: Seq<EventView>| can_parse_eitems(buf@, i as int, l) implies
                    l.len() >= 1 && ev@ == l[0] && j as int == i + enc_event(l[0]).len() by {
                    if l.len() == 0 {
                        assert(buf@[i as int] == enc_eitems(l).push(RBRACK)[0]);
                        assert(false);
                    }
                    lemma_eitems_first(buf@, i as int, l);
                }
            }
            if j < l_total && buf[j] == COMMA {
                match parse_eitems(buf, j + 1) {
                    None => {
                        proof {
                            assert forall|l: Seq<EventView>| !can_parse_eitems(
                                buf@,
                                i as int,
                                l,
                            ) by {
                                if can_parse_eitems(buf@, i as int, l) {
                                    if l.len() == 0 {
                                        assert(buf@[i as int] == enc_eitems(l).push(RBRACK)[0]);
                                        assert(false);
                                    }
                                    lemma_eitems_first(buf@, i as int, l);
                                    assert(l.len() > 1);
                                    assert(false);
                                }
                            }
                        }
                        None
                    },
                    Some((mut rest, k)) => {
                        if rest.is_empty() {
                            proof {
                                assert forall|l: Seq<EventView>| !can_parse_eitems(
                                    buf@,
                                    i as int,
                                    l,
                                ) by {
                                    if can_parse_eitems(buf@, i as int, l) {
                                        if l.len() == 0 {
                                            assert(buf@[i as int] == enc_eitems(l).push(
                                                RBRACK,
                                            )[0]);
                                            assert(false);
                                        }
                                        lemma_eitems_first(buf@, i as int, l);
                                        assert(l.len() > 1);
                                        assert(events_view(rest@) == l.drop_first());
                                        assert(false);
                                    }
                                }
                            }
                            return None;
                        }
                        proof {
                            let li = rest@.insert(0, ev);
                            assert(events_view(li)[0] == ev@);
                            assert(events_view(li).drop_first() =~= events_view(rest@));
                            assert(enc_eitems(events_view(li)) == enc_event(ev@).push(COMMA)
                                + enc_eitems(events_view(rest@)));
                            assert(j - i == enc_event(ev@).len());
                            assert(buf@[j as int] == COMMA);
                            assert(buf@.subrange(i as int, k as int) =~= buf@.subrange(
                                i as int,
                                j as int,
                            ) + seq![COMMA] + buf@.subrange(j + 1, k as int));
                            assert(enc_event(ev@) + seq![COMMA] + (enc_eitems(events_view(rest@))
                                + seq![RBRACK]) =~= enc_eitems(events_view(li)) + seq![RBRACK]);
                            assert(buf@.subrange(i as int, k as int) == enc_eitems(
                                events_view(li),
                            ) + seq![RBRACK]);
                            assert forall|l: Seq<EventView>| can_parse_eitems(buf@, i as int, l)
                                implies events_view(rest@.insert(0, ev)) == l && k as int == i
                                + enc_eitems(l).len() + 1 by {
                                if l.len() == 0 {
                                    assert(buf@[i as int] == enc_eitems(l).push(RBRACK)[0]);
                                    assert(false);
                                }
                                lemma_eitems_first(buf@, i as int, l);
                                assert(can_parse_event(buf@, i as int, l[0]));
                                assert(ev@ == l[0]);
                                assert(j as int == i + enc_event(l[0]).len());
                                assert(l.len() > 1);
                                assert(events_view(rest@) == l.drop_first());
                                let li = rest@.insert(0, ev);
                                assert forall|m: int| 0 <= m < li.len() implies events_view(
                                    li,
                                )[m] == l[m] by {
                                    if m == 0 {
                                        assert(li[0] == ev);
                                    } else {
                                        assert(li[m] == rest@[m - 1]);
                                        assert(events_view(rest@)[m - 1] == l.drop_first()[m
                                            - 1]);
                                    }
                                }
                                assert(events_view(li) =~= l);
                            }
                        }
                        rest.insert(0, ev);
                        Some((rest, k))
                    },
                }
            } else if j < l_total && buf[j] == RBRACK {
                let mut v: Vec<Event> = Vec::new();
                v.push(ev);
                proof {
                    assert forall|l: Seq<EventView>| can_parse_eitems(buf@, i as int, l) implies
                        events_view(v@) == l && j + 1 as int == i + enc_eitems(l).len() + 1 by {
                        if l.len() == 0 {
                            assert(buf@[i as int] == enc_eitems(l).push(RBRACK)[0]);
                            assert(false);
                        }
                        lemma_eitems_first(buf@, i as int, l);
                        assert(can_parse_event(buf@, i as int, l[0]));
                        assert(ev@ == l[0]);
                        assert(j as int == i + enc_event(l[0]).len());
                        assert(l.len() == 1);
                        assert(events_view(v@) =~= l);
                    }
                }
                Some((v, j + 1))
            } else {
                proof {
                    assert forall|l: Seq<EventView>| !can_parse_eitems(buf@, i as int, l) by {
                        if can_parse_eitems(buf@, i as int, l) {
                            if l.len() == 0 {
                                assert(buf@[i as int] == enc_eitems(l).push(RBRACK)[0]);
                                assert(false);
                            }
                            lemma_eitems_first(buf@, i as int, l);
                            assert(false);
                        }
                    }
                }
                None
            }
        },
    }
}

proof fn lemma_events_parts(b: Seq<u8>, i: int, l: Seq<EventView>)
    requires
        can_parse_events(b, i, l),
    ensures
        b[i] == LBRACK,
        can_parse_eitems(b, i + 1, l),
{
    lemma_split_prefix(b, i, seq![LBRACK], enc_eitems(l).push(RBRACK));
    assert(b[i] == b.subrange(i, i + 1)[0]);
}

/// Reads one bracketed list of event records starting at `i`.
pub fn parse_events(buf: &Vec<u8>, i: usize) -> (r: Option<(Vec<Event>, usize)>)
    requires
        i <= buf@.len(),
    ensures
        r matches Some(p) ==> i < p.1 <= buf@.len(),
        r matches Some(p) ==> buf@.subrange(i as int, p.1 as int) == enc_events(events_view(p.0@)),
        forall|l: Seq<EventView>|
            can_parse_events(buf@, i as int, l) ==> (r matches Some(p) && events_view(p.0@) == l
                && p.1 as int == i + enc_events(l).len()),
{
    let l_total: usize = buf.len();
    if i < l_total && buf[i] == LBRACK {
        match parse_eitems(buf, i + 1) {
            None => {
                proof {
                    assert forall|l: Seq<EventView>| !can_parse_events(buf@, i as int, l) by {
                        if can_parse_events(buf@, i as int, l) {
                            lemma_events_parts(buf@, i as int, l);
                            assert(false);
                        }
                    }
                }
                None
            },
            Some((v, j)) => {
                proof {
                    assert forall|l: Seq<EventView>| can_parse_events(buf@, i as int, l) implies
                        events_view(v@) == l && j as int == i + enc_events(l).len() by {
                        lemma_events_parts(buf@, i as int, l);
                    }
                    assert(buf@.subrange(i as int, j as int) =~= seq![LBRACK] + buf@.subrange(
                        i + 1,
                        j as int,
                    ));
                    assert(seq![LBRACK] + (enc_eitems(events_view(v@)) + seq![RBRACK])
                        =~= enc_events(events_view(v@)));
                }
                Some((v, j))
            },
        }
    } else {
        proof {
            assert forall|l: Seq<EventView>| !can_parse_events(buf@, i as int, l) by {
                if can_parse_events(buf@, i as int, l) {
                    lemma_events_parts(buf@, i as int, l);
                    assert(false);
                }
            }
        }
        None
    }
}

/// Appends the record encoding of one event to `out`.
pub fn push_enc_event(out: &mut Vec<u8>, e: &Event)
    ensures
        final(out)@ == old(out)@ + enc_event(e@),
{
    out.push(LBRACE);
    push_bytes(out, &tag_name_v());
    push_enc_str(out, &e.name);
    out.push(COMMA);
    push_bytes(out, &tag_from_v());
    push_enc_strs(out, &e.from);
    out.push(COMMA);
    push_bytes(out, &tag_to_v());
    push_enc_str(out, &e.to);
    out.push(RBRACE);
    proof {
        assert(out@ =~= old(out)@ + enc_event(e@));
    }
}

/// Appends the event-record encodings of `l` from index `k` on.
fn push_enc_eitems_from(out: &mut Vec<u8>, l: &Vec<Event>, k: usize)
    requires
        k <= l@.len(),
    ensures
        final(out)@ == old(out)@ + enc_eitems(events_view(l@).skip(k as int)),
    decreases l@.len() - k,
{
    if k == l.len() {
        proof {
            assert(events_view(l@).skip(k as int) =~= Seq::<EventView>::empty());
            assert(out@ =~= old(out)@ + enc_eitems(events_view(l@).skip(k as int)));
        }
    } else {
        push_enc_event(out, &l[k]);
        proof {
            assert(events_view(l@).skip(k as int)[0] == l@[k as int]@);
        }
        if k + 1 == l.len() {
            proof {
                assert(events_view(l@).skip(k as int).len() == 1);
                assert(out@ =~= old(out)@ + enc_eitems(events_view(l@).skip(k as int)));
            }
        } else {
            out.push(COMMA);
            push_enc_eitems_from(out, l, k + 1);
            proof {
                assert(events_view(l@).skip(k as int).drop_first() =~= events_view(l@).skip(
                    k + 1,
                ));
                assert(out@ =~= old(out)@ + enc_eitems(events_view(l@).skip(k as int)));
            }
        }
    }
}

/// Appends the bracketed event-list encoding of `l` to `out`.
pub fn push_enc_events(out: &mut Vec<u8>, l: &Vec<Event>)
    ensures
        final(out)@ == old(out)@ + enc_events(events_view(l@)),
{
    out.push(LBRACK);
    push_enc_eitems_from(out, l, 0);
    out.push(RBRACK);
    proof {
        assert(events_view(l@).skip(0) =~= events_view(l@));
        assert(out@ =~= old(out)@ + enc_events(events_view(l@)));
    }
}

/// The encoding of one whole definition: a braced record with tagged fields.
pub open spec fn enc_def(m: MachineView) -> Seq<u8> {
    seq![LBRACE] + (tag_name() + (enc_str(m.name) + (seq![COMMA] + (tag_prefix() + (enc_str(
        m.prefix,
    ) + (seq![COMMA] + (tag_field() + (enc_str(m.field) + (seq![COMMA] + (tag_states() + (enc_strs(
        m.states,
    ) + (seq![COMMA] + (tag_events() + (enc_events(m.events) + seq![RBRACE]))))))))))))))
}

/// A sequence `b` carries the encoding of the definition `m` at position `i`.
pub open spec fn can_parse_def(b: Seq<u8>, i: int, m: MachineView) -> bool {
    &&& 0 <= i
    &&& i + enc_def(m).len() <= b.len()
    &&& b.subrange(i, i + enc_def(m).len()) == enc_def(m)
}

/// Start of the encoded `name` payload.
spec fn dp_name(i: int) -> int {
    i + 1 + tag_name().len()
}

/// Start of the encoded `prefix` payload.
spec fn dp_prefix(i: int, m: MachineView) -> int {
    dp_name(i) + enc_str(m.name).len() + 1 + tag_prefix().len()
}

/// Start of the encoded `field` payload.
spec fn dp_field(i: int, m: MachineView) -> int {
    dp_prefix(i, m) + enc_str(m.prefix).len() + 1 + tag_field().len()
}

/// Start of the encoded `states` list.
spec fn dp_states(i: int, m: MachineView) -> int {
    dp_field(i, m) + enc_str(m.field).len() + 1 + tag_states().len()
}

/// Start of the encoded `events` list.
spec fn dp_events(i: int, m: MachineView) -> int {
    dp_states(i, m) + enc_strs(m.states).len() + 1 + tag_events().len()
}

proof fn lemma_def_parts(b: Seq<u8>, i: int, m: MachineView)
    requires
        can_parse_def(b, i, m),
    ensures
        b[i] == LBRACE,
        b.subrange(i + 1, dp_name(i)) == tag_name(),
        can_parse_str(b, dp_name(i), m.name),
        b[dp_name(i) + enc_str(m.name).len()] == COMMA,
        b.subrange(dp_name(i) + enc_str(m.name).len() + 1, dp_prefix(i, m)) == tag_prefix(),
        can_parse_str(b, dp_prefix(i, m), m.prefix),
        b[dp_prefix(i, m) + enc_str(m.prefix).len()] == COMMA,
        b.subrange(dp_prefix(i, m) + enc_str(m.prefix).len() + 1, dp_field(i, m)) == tag_field(),
        can_parse_str(b, dp_field(i, m), m.field),
        b[dp_field(i, m) + enc_str(m.field).len()] == COMMA,
        b.subrange(dp_field(i, m) + enc_str(m.field).len() + 1, dp_states(i, m)) == tag_states(),
        can_parse_strs(b, dp_states(i, m), m.states),
        b[dp_states(i, m) + enc_strs(m.states).len()] == COMMA,
        b.subrange(dp_states(i, m) + enc_strs(m.states).len() + 1, dp_events(i, m))
            == tag_events(),
        can_parse_events(b, dp_events(i, m), m.events),
        b[dp_events(i, m) + enc_events(m.events).len()] == RBRACE,
        dp_events(i, m) + enc_events(m.events).len() + 1 == i + enc_def(m).len(),
{
    let r0 = tag_name() + (enc_str(m.name) + (seq![COMMA] + (tag_prefix() + (enc_str(m.prefix) + (
    seq![COMMA] + (tag_field() + (enc_str(m.field) + (seq![COMMA] + (tag_states() + (enc_strs(
        m.states,
    ) + (seq![COMMA] + (tag_events() + (enc_events(m.events) + seq![RBRACE])))))))))))));
    lemma_split_prefix(b, i, seq![LBRACE], r0);
    assert(b[i] == b.subrange(i, i + 1)[0]);
    let i1 = i + 1;
    let r1 = enc_str(m.name) + (seq![COMMA] + (tag_prefix() + (enc_str(m.prefix) + (seq![COMMA] + (
    tag_field() + (enc_str(m.field) + (seq![COMMA] + (tag_states() + (enc_strs(m.states) + (
    seq![COMMA] + (tag_events() + (enc_events(m.events) + seq![RBRACE]))))))))))));
    lemma_split_prefix(b, i1, tag_name(), r1);
    let i2 = i1 + tag_name().len();
    let r2 = seq![COMMA] + (tag_prefix() + (enc_str(m.prefix) + (seq![COMMA] + (tag_field() + (
    enc_str(m.field) + (seq![COMMA] + (tag_states() + (enc_strs(m.states) + (seq![COMMA] + (
    tag_events() + (enc_events(m.events) + seq![RBRACE])))))))))));
    lemma_split_prefix(b, i2, enc_str(m.name), r2);
    let i3 = i2 + enc_str(m.name).len();
    let r3 = tag_prefix() + (enc_str(m.prefix) + (seq![COMMA] + (tag_field() + (enc_str(m.field)
        + (seq![COMMA] + (tag_states() + (enc_strs(m.states) + (seq![COMMA] + (tag_events() + (
    enc_events(m.events) + seq![RBRACE]))))))))));
    lemma_split_prefix(b, i3, seq![COMMA], r3);
    assert(b[i3] == b.subrange(i3, i3 + 1)[0]);
    let i4 = i3 + 1;
    let r4 = enc_str(m.prefix) + (seq![COMMA] + (tag_field() + (enc_str(m.field) + (seq![COMMA] + (
    tag_states() + (enc_strs(m.states) + (seq![COMMA] + (tag_events() + (enc_events(m.events)
        + seq![RBRACE])))))))));
    lemma_split_prefix(b, i4, tag_prefix(), r4);
    let i5 = i4 + tag_prefix().len();
    let r5 = seq![COMMA] + (tag_field() + (enc_str(m.field) + (seq![COMMA] + (tag_states() + (
    enc_strs(m.states) + (seq![COMMA] + (tag_events() + (enc_events(m.events)
        + seq![RBRACE]))))))));
    lemma_split_prefix(b, i5, enc_str(m.prefix), r5);
    let i6 = i5 + enc_str(m.prefix).len();
    let r6 = tag_field() + (enc_str(m.field) + (seq![COMMA] + (tag_states() + (enc_strs(m.states)
        + (seq![COMMA] + (tag_events() + (enc_events(m.events) + seq![RBRACE])))))));
    lemma_split_prefix(b, i6, seq![COMMA], r6);
    assert(b[i6] == b.subrange(i6, i6 + 1)[0]);
    let i7 = i6 + 1;
    let r7 = enc_str(m.field) + (seq![COMMA] + (tag_states() + (enc_strs(m.states) + (seq![COMMA]
        + (tag_events() + (enc_events(m.events) + seq![RBRACE]))))));
    lemma_split_prefix(b, i7, tag_field(), r7);
    let i8 = i7 + tag_field().len();
    let r8 = seq![COMMA] + (tag_states() + (enc_strs(m.states) + (seq![COMMA] + (tag_events() + (
    enc_events(m.events) + seq![RBRACE])))));
    lemma_split_prefix(b, i8, enc_str(m.field), r8);
    let i9 = i8 + enc_str(m.field).len();
    let r9 = tag_states() + (enc_strs(m.states) + (seq![COMMA] + (tag_events() + (enc_events(
        m.events,
    ) + seq![RBRACE]))));
    lemma_split_prefix(b, i9, seq![COMMA], r9);
    assert(b[i9] == b.subrange(i9, i9 + 1)[0]);
    let i10 = i9 + 1;
    let r10 = enc_strs(m.states) + (seq![COMMA] + (tag_events() + (enc_events(m.events)
        + seq![RBRACE])));
    lemma_split_prefix(b, i10, tag_states(), r10);
    let i11 = i10 + tag_states().len();
    let r11 = seq![COMMA] + (tag_events() + (enc_events(m.events) + seq![RBRACE]));
    lemma_split_prefix(b, i11, enc_strs(m.states), r11);
    let i12 = i11 + enc_strs(m.states).len();
    let r12 = tag_events() + (enc_events(m.events) + seq![RBRACE]);
    lemma_split_prefix(b, i12, seq![COMMA], r12);
    assert(b[i12] == b.subrange(i12, i12 + 1)[0]);
    let i13 = i12 + 1;
    let r13 = enc_events(m.events) + seq![RBRACE];
    lemma_split_prefix(b, i13, tag_events(), r13);
    let i14 = i13 + tag_events().len();
    lemma_split_prefix(b, i14, enc_events(m.events), seq![RBRACE]);
    let i15 = i14 + enc_events(m.events).len();
    assert(b[i15] == b.subrange(i15, i15 + 1)[0]);
}

proof fn lemma_whole_buffer(b: Seq<u8>, m: MachineView)
    requires
        b == enc_def(m),
    ensures
        can_parse_def(b, 0, m),
{
    assert(b.subrange(0, enc_def(m).len() as int) =~= enc_def(m));
}

#[verifier::rlimit(100)]
proof fn lemma_def_assemble(
    b: Seq<u8>,
    i: int,
    j1: int,
    j2: int,
    j4: int,
    j5: int,
    j7: int,
    j8: int,
    j10: int,
    j11: int,
    j13: int,
    j14: int,
    m: MachineView,
)
    requires
        0 <= i,
        i + 1 <= j1 <= j2 < j4 <= j5 < j7 <= j8 < j10 <= j11 < j13 <= j14 < b.len(),
        b[i] == LBRACE,
        b.subrange(i + 1, j1) == tag_name(),
        b.subrange(j1, j2) == enc_str(m.name),
        b[j2] == COMMA,
        b.subrange(j2 + 1, j4) == tag_prefix(),
        b.subrange(j4, j5) == enc_str(m.prefix),
        b[j5] == COMMA,
        b.subrange(j5 + 1, j7) == tag_field(),
        b.subrange(j7, j8) == enc_str(m.field),
        b[j8] == COMMA,
        b.subrange(j8 + 1, j10) == tag_states(),
        b.subrange(j10, j11) == enc_strs(m.states),
        b[j11] == COMMA,
        b.subrange(j11 + 1, j13) == tag_events(),
        b.subrange(j13, j14) == enc_events(m.events),
        b[j14] == RBRACE,
    ensures
        b.subrange(i, j14 + 1) == enc_def(m),
{
    assert(b.subrange(i, j14 + 1) =~= seq![LBRACE] + b.subrange(i + 1, j1) + b.subrange(j1, j2)
        + seq![COMMA] + b.subrange(j2 + 1, j4) + b.subrange(j4, j5) + seq![COMMA] + b.subrange(
        j5 + 1,
        j7,
    ) + b.subrange(j7, j8) + seq![COMMA] + b.subrange(j8 + 1, j10) + b.subrange(j10, j11)
        + seq![COMMA] + b.subrange(j11 + 1, j13) + b.subrange(j13, j14) + seq![RBRACE]);
    assert(seq![LBRACE] + tag_name() + enc_str(m.name) + seq![COMMA] + tag_prefix() + enc_str(
        m.prefix,
    ) + seq![COMMA] + tag_field() + enc_str(m.field) + seq![COMMA] + tag_states() + enc_strs(
        m.states,
    ) + seq![COMMA] + tag_events() + enc_events(m.events) + seq![RBRACE] =~= enc_def(m));
}

/// Decodes a definition from its structured-text encoding and validates the
/// data-model invariants; any malformed, non-canonical or invariant-violating
/// payload is rejected. The decoder inverts [`encode`] exactly: it succeeds
/// if and only if the buffer is the encoding of a valid definition, and then
/// returns that definition.
#[verifier::rlimit(100)]
pub fn decode(buf: &Vec<u8>) -> (r: Result<StateMachine, FsmError>)
    ensures
        r matches Ok(m) ==> valid_machine(m@) && buf@ == enc_def(m@),
        forall|dv: MachineView|
            valid_machine(dv) && buf@ == enc_def(dv) ==> (r matches Ok(m) && m@ == dv),
{
    let l_total: usize = buf.len();
    let j0 = match expect_byte(buf, 0, LBRACE) {
        None => {
            proof {
                assert forall|dv: MachineView| buf@ != enc_def(dv) by {
                    if buf@ == enc_def(dv) {
                        lemma_whole_buffer(buf@, dv);
                        lemma_def_parts(buf@, 0, dv);
                        assert(false);
                    }
                }
            }
            return Err(FsmError::Decode);
        },
        Some(j) => j,
    };
    let j1 = match expect_bytes(buf, j0, &tag_name_v()) {
        None => {
            proof {
                assert forall|dv: MachineView| buf@ != enc_def(dv) by {
                    if buf@ == enc_def(dv) {
                        lemma_whole_buffer(buf@, dv);
                        lemma_def_parts(buf@, 0, dv);
                        assert(false);
                    }
                }
            }
            return Err(FsmError::Decode);
        },
        Some(j) => j,
    };
    let (name, j2) = match parse_str(buf, j1) {
        None => {
            proof {
                assert forall|dv: MachineView| buf@ != enc_def(dv) by {
                    if buf@ == enc_def(dv) {
                        lemma_whole_buffer(buf@, dv);
                        lemma_def_parts(buf@, 0, dv);
                        assert(false);
                    }
                }
            }
            return Err(FsmError::Decode);
        },
        Some(p) => p,
    };
    let j3 = match expect_byte(buf, j2, COMMA) {
        None => {
            proof {
                assert forall|dv: MachineView| buf@ != enc_def(dv) by {
                    if buf@ == enc_def(dv) {
                        lemma_whole_buffer(buf@, dv);
                        lemma_def_parts(buf@, 0, dv);
                        assert(false);
                    }
                }
            }
            return Err(FsmError::Decode);
        },
        Some(j) => j,
    };
    let j4 = match expect_bytes(buf, j3, &tag_prefix_v()) {
        None => {
            proof {
                assert forall|dv: MachineView| buf@ != enc_def(dv) by {
                    if buf@ == enc_def(dv) {
                        lemma_whole_buffer(buf@, dv);
                        lemma_def_parts(buf@, 0, dv);
                        assert(false);
                    }
                }
            }
            return Err(FsmError::Decode);
        },
        Some(j) => j,
    };
    let (prefix, j5) = match parse_str(buf, j4) {
        None => {
            proof {
                assert forall|dv: MachineView| buf@ != enc_def(dv) by {
                    if buf@ == enc_def(dv) {
                        lemma_whole_buffer(buf@, dv);
                        lemma_def_parts(buf@, 0, dv);
                        assert(false);
                    }
                }
            }
            return Err(FsmError::Decode);
        },
        Some(p) => p,
    };
    let j6 = match expect_byte(buf, j5, COMMA) {
        None => {
            proof {
                assert forall|dv: MachineView| buf@ != enc_def(dv) by {
                    if buf@ == enc_def(dv) {
                        lemma_whole_buffer(buf@, dv);
                        lemma_def_parts(buf@, 0, dv);
                        assert(false);
                    }
                }
            }
            return Err(FsmError::Decode);
        },
        Some(j) => j,
    };
    let j7 = match expect_bytes(buf, j6, &tag_field_v()) {
        None => {
            proof {
                assert forall|dv: MachineView| buf@ != enc_def(dv) by {
                    if buf@ == enc_def(dv) {
                        lemma_whole_buffer(buf@, dv);
                        lemma_def_parts(buf@, 0, dv);
                        assert(false);
                    }
                }
            }
            return Err(FsmError::Decode);
        },
        Some(j) => j,
    };
    let (field, j8) = match parse_str(buf, j7) {
        None => {
            proof {
                assert forall|dv: MachineView| buf@ != enc_def(dv) by {
                    if buf@ == enc_def(dv) {
                        lemma_whole_buffer(buf@, dv);
                        lemma_def_parts(buf@, 0, dv);
                        assert(false);
                    }
                }
            }
            return Err(FsmError::Decode);
        },
        Some(p) => p,
    };
    let j9 = match expect_byte(buf, j8, COMMA) {
        None => {
            proof {
                assert forall|dv: MachineView| buf@ != enc_def(dv) by {
                    if buf@ == enc_def(dv) {
                        lemma_whole_buffer(buf@, dv);
                        lemma_def_parts(buf@, 0, dv);
                        assert(false);
                    }
                }
            }
            return Err(FsmError::Decode);
        },
        Some(j) => j,
    };
    let j10 = match expect_bytes(buf, j9, &tag_states_v()) {
        None => {
            proof {
                assert forall|dv: MachineView| buf@ != enc_def(dv) by {
                    if buf@ == enc_def(dv) {
                        lemma_whole_buffer(buf@, dv);
                        lemma_def_parts(buf@, 0, dv);
                        assert(false);
                    }
                }
            }
            return Err(FsmError::Decode);
        },
        Some(j) => j,
    };
    let (states, j11) = match parse_strs(buf, j10) {
        None => {
            proof {
                assert forall|dv: MachineView| buf@ != enc_def(dv) by {
                    if buf@ == enc_def(dv) {
                        lemma_whole_buffer(buf@, dv);
                        lemma_def_parts(buf@, 0, dv);
                        assert(false);
                    }
                }
            }
            return Err(FsmError::Decode);
        },
        Some(p) => p,
    };
    let j12 = match expect_byte(buf, j11, COMMA) {
        None => {
            proof {
                assert forall|dv: MachineView| buf@ != enc_def(dv) by {
                    if buf@ == enc_def(dv) {
                        lemma_whole_buffer(buf@, dv);
                        lemma_def_parts(buf@, 0, dv);
                        assert(false);
                    }
                }
            }
            return Err(FsmError::Decode);
        },
        Some(j) => j,
    };
    let j13 = match expect_bytes(buf, j12, &tag_events_v()) {
        None => {
            proof {
                assert forall|dv: MachineView| buf@ != enc_def(dv) by {
                    if buf@ == enc_def(dv) {
                        lemma_whole_buffer(buf@, dv);
                        lemma_def_parts(buf@, 0, dv);
                        assert(false);
                    }
                }
            }
            return Err(FsmError::Decode);
        },
        Some(j) => j,
    };
    let (events, j14) = match parse_events(buf, j13) {
        None => {
            proof {
                assert forall|dv: MachineView| buf@ != enc_def(dv) by {
                    if buf@ == enc_def(dv) {
                        lemma_whole_buffer(buf@, dv);
                        lemma_def_parts(buf@, 0, dv);
                        assert(false);
                    }
                }
            }
            return Err(FsmError::Decode);
        },
        Some(p) => p,
    };
    let j15 = match expect_byte(buf, j14, RBRACE) {
        None => {
            proof {
                assert forall|dv: MachineView| buf@ != enc_def(dv) by {
                    if buf@ == enc_def(dv) {
                        lemma_whole_buffer(buf@, dv);
                        lemma_def_parts(buf@, 0, dv);
                        assert(false);
                    }
                }
            }
            return Err(FsmError::Decode);
        },
        Some(j) => j,
    };
    if j15 != l_total {
        proof {
            assert forall|dv: MachineView| buf@ != enc_def(dv) by {
                if buf@ == enc_def(dv) {
                    lemma_whole_buffer(buf@, dv);
                    lemma_def_parts(buf@, 0, dv);
                    assert(false);
                }
            }
        }
        return Err(FsmError::Decode);
    }
    let m = StateMachine { name, prefix, field, states, events };
    proof {
        assert forall|dv: MachineView| buf@ == enc_def(dv) implies m@ == dv by {
            lemma_whole_buffer(buf@, dv);
            lemma_def_parts(buf@, 0, dv);
            assert(m@ =~= dv);
        }
        lemma_def_assemble(
            buf@,
            0,
            j1 as int,
            j2 as int,
            j4 as int,
            j5 as int,
            j7 as int,
            j8 as int,
            j10 as int,
            j11 as int,
            j13 as int,
            j14 as int,
            m@,
        );
        assert(buf@.subrange(0, j15 as int) =~= buf@);
    }
    if m.is_valid() {
        Ok(m)
    } else {
        Err(FsmError::Decode)
    }
}

/// Encodes a definition into its structured-text byte form.
#[verifier::rlimit(100)]
pub fn encode(m: &StateMachine) -> (r: Vec<u8>)
    ensures
        r@ == enc_def(m@),
{
    let mut out: Vec<u8> = Vec::new();
    out.push(LBRACE);
    push_bytes(&mut out, &tag_name_v());
    push_enc_str(&mut out, &m.name);
    out.push(COMMA);
    push_bytes(&mut out, &tag_prefix_v());
    push_enc_str(&mut out, &m.prefix);
    out.push(COMMA);
    push_bytes(&mut out, &tag_field_v());
    push_enc_str(&mut out, &m.field);
    out.push(COMMA);
    push_bytes(&mut out, &tag_states_v());
    push_enc_strs(&mut out, &m.states);
    out.push(COMMA);
    push_bytes(&mut out, &tag_events_v());
    push_enc_events(&mut out, &m.events);
    out.push(RBRACE);
    proof {
        assert(out@ =~= enc_def(m@));
    }
    out
}

} // verus!
