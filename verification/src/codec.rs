//! Byte-level primitives of the textual payload encoding.
//!
//! Payloads are structured text in a JSON-compatible shape.  This module
//! holds the primitive pieces — decimal numbers, boolean literals,
//! escaped strings, exact literals — each with an encoder, a parser, and
//! the lemmas tying the two together.

use vstd::prelude::*;

verus! {

/// An ASCII decimal digit.
pub open spec fn is_digit(c: u8) -> bool {
    0x30 <= c <= 0x39
}

/// Decimal digits of a value, most significant first.
pub open spec fn dec_rep(v: nat) -> Seq<u8>
    decreases v,
{
    if v < 10 {
        seq![(0x30 + v) as u8]
    } else {
        dec_rep(v / 10).push((0x30 + v % 10) as u8)
    }
}

/// Every byte of the sequence is a decimal digit.
pub open spec fn all_digits(s: Seq<u8>) -> bool {
    forall|i: int| 0 <= i < s.len() ==> is_digit(#[trigger] s[i])
}

/// The canonical digit strings: nonempty, all digits, no redundant
/// leading zero.
pub open spec fn canonical_digits(s: Seq<u8>) -> bool {
    &&& s.len() > 0
    &&& all_digits(s)
    &&& s[0] == 0x30u8 ==> s.len() == 1
}

/// The value of a digit string (junk on non-digit bytes).
pub open spec fn dec_value(s: Seq<u8>) -> int
    decreases s.len(),
{
    if s.len() == 0 {
        0
    } else {
        dec_value(s.drop_last()) * 10 + (s.last() - 0x30)
    }
}

/// The digit representation of a value is canonical.
pub proof fn lemma_dec_rep_canonical(v: nat)
    ensures
        canonical_digits(dec_rep(v)),
        v < 10 <==> dec_rep(v).len() == 1,
    decreases v,
{
    if v < 10 {
    } else {
        lemma_dec_rep_canonical(v / 10);
        assert(dec_rep(v)[0] == dec_rep(v / 10)[0]);
    }
}

/// Reading the digit representation back yields the value.
pub proof fn lemma_dec_value_rep(v: nat)
    ensures
        dec_value(dec_rep(v)) == v,
    decreases v,
{
    if v < 10 {
        let c = (0x30 + v) as u8;
        assert(dec_value(Seq::<u8>::empty()) == 0);
        assert(seq![c].drop_last() =~= Seq::<u8>::empty());
        assert(seq![c].last() == c);
        assert(dec_value(seq![c]) == c - 0x30);
        assert(c - 0x30 == v);
    } else {
        lemma_dec_value_rep(v / 10);
        assert(dec_rep(v).drop_last() =~= dec_rep(v / 10));
        assert(dec_rep(v).last() == (0x30 + v % 10) as u8);
        assert((0x30 + v % 10) as u8 - 0x30 == v % 10);
        assert(dec_value(dec_rep(v)) == (v / 10) * 10 + v % 10);
        assert((v / 10) * 10 + v % 10 == v) by (nonlinear_arith);
    }
}

/// The value of a nonempty digit string with a nonzero leading digit is
/// positive, and any all-digit string's value is at least zero.
pub proof fn lemma_dec_value_bounds(s: Seq<u8>)
    requires
        all_digits(s),
    ensures
        dec_value(s) >= 0,
        s.len() > 0 && s[0] != 0x30u8 ==> dec_value(s) >= 1,
    decreases s.len(),
{
    if s.len() > 0 {
        lemma_dec_value_bounds(s.drop_last());
        if s.len() > 1 {
            assert(s.drop_last()[0] == s[0]);
        }
    }
}

/// A canonical digit string is the representation of its value.
pub proof fn lemma_rep_dec_value(s: Seq<u8>)
    requires
        canonical_digits(s),
    ensures
        dec_value(s) >= 0,
        dec_rep(dec_value(s) as nat) == s,
    decreases s.len(),
{
    lemma_dec_value_bounds(s);
    if s.len() == 1 {
        assert(s.drop_last() =~= Seq::<u8>::empty());
        assert(dec_value(Seq::<u8>::empty()) == 0);
        assert(dec_value(s) == s[0] - 0x30);
        assert((0x30 + (dec_value(s) as nat)) as u8 == s[0]);
        assert(dec_rep(dec_value(s) as nat) =~= s);
    } else {
        let butlast = s.drop_last();
        assert(butlast[0] == s[0]);
        assert(all_digits(butlast));
        lemma_rep_dec_value(butlast);
        lemma_dec_value_bounds(butlast);
        let v = dec_value(s);
        assert(v == dec_value(butlast) * 10 + (s.last() - 0x30));
        assert(v >= 10);
        assert(v / 10 == dec_value(butlast) && v % 10 == s.last() - 0x30) by (nonlinear_arith)
            requires
                v == dec_value(butlast) * 10 + (s.last() - 0x30),
                0 <= s.last() - 0x30 <= 9,
                dec_value(butlast) >= 0,
        ;
        assert(dec_rep((v as nat) / 10) == butlast);
        assert((0x30 + (v as nat) % 10) as u8 == s.last());
        assert(dec_rep(v as nat) =~= s);
    }
}

/// The value of a digit-string prefix never exceeds the whole string's.
pub proof fn lemma_dec_value_take_le(s: Seq<u8>, k: int)
    requires
        all_digits(s),
        0 <= k <= s.len(),
    ensures
        dec_value(s.take(k)) <= dec_value(s),
    decreases s.len(),
{
    lemma_dec_value_bounds(s);
    if k == s.len() {
        assert(s.take(k) =~= s);
    } else {
        assert(s.drop_last().take(k) =~= s.take(k));
        assert(all_digits(s.drop_last()));
        lemma_dec_value_take_le(s.drop_last(), k);
        lemma_dec_value_bounds(s.drop_last());
    }
}

/// A number stands at `pos` in `b`, ending just before `end`: the bytes
/// between are its canonical digits and no digit follows.
pub open spec fn num_at(b: Seq<u8>, pos: int, v: u64, end: int) -> bool {
    &&& 0 <= pos < end <= b.len()
    &&& b.subrange(pos, end) == dec_rep(v as nat)
    &&& end == b.len() || !is_digit(b[end])
}

/// At one position there is at most one number.
pub proof fn lemma_num_at_unique(b: Seq<u8>, pos: int, v1: u64, e1: int, v2: u64, e2: int)
    requires
        num_at(b, pos, v1, e1),
        num_at(b, pos, v2, e2),
    ensures
        v1 == v2,
        e1 == e2,
{
    lemma_dec_rep_canonical(v1 as nat);
    lemma_dec_rep_canonical(v2 as nat);
    if e1 < e2 {
        assert(is_digit(b.subrange(pos, e2)[e1 - pos]));
        assert(b[e1] == b.subrange(pos, e2)[e1 - pos]);
    }
    if e2 < e1 {
        assert(is_digit(b.subrange(pos, e1)[e2 - pos]));
        assert(b[e2] == b.subrange(pos, e1)[e2 - pos]);
    }
    assert(e1 == e2);
    lemma_dec_value_rep(v1 as nat);
    lemma_dec_value_rep(v2 as nat);
    assert(b.subrange(pos, e1) == b.subrange(pos, e2));
}

/// Append the decimal digits of a value.
pub fn emit_u64(out: &mut Vec<u8>, v: u64)
    ensures
        final(out)@ == old(out)@ + dec_rep(v as nat),
{
    let mut tmp: Vec<u8> = Vec::new();
    let mut x: u64 = v;

    tmp.push(0x30 + (x % 10) as u8);
    proof {
        if v < 10 {
            assert(tmp@.reverse() =~= dec_rep(v as nat));
        } else {
            assert(tmp@.reverse() =~= seq![(0x30 + (v as nat) % 10) as u8]);
        }
    }
    x = x / 10;

    while x > 0
        invariant
            if x > 0 {
                dec_rep(v as nat) == dec_rep(x as nat) + tmp@.reverse()
            } else {
                dec_rep(v as nat) == tmp@.reverse()
            },
        decreases x,
    {
        let d: u8 = 0x30 + (x % 10) as u8;
        let ghost pre = tmp@;
        tmp.push(d);
        proof {
            assert(tmp@.reverse() =~= seq![d] + pre.reverse());
            if x >= 10 {
                assert(dec_rep(x as nat) == dec_rep((x as nat) / 10).push(d));
                assert(dec_rep((x as nat) / 10) + (seq![d] + pre.reverse()) =~= dec_rep(x as nat)
                    + pre.reverse());
            } else {
                assert(dec_rep(x as nat) =~= seq![d]);
            }
        }
        x = x / 10;
    }

    let n = tmp.len();
    let mut j: usize = 0;
    while j < n
        invariant
            n == tmp@.len(),
            j <= n,
            out@ == old(out)@ + tmp@.reverse().take(j as int),
        decreases n - j,
    {
        out.push(tmp[n - 1 - j]);
        proof {
            assert(tmp@.reverse().take(j + 1) =~= tmp@.reverse().take(j as int).push(
                tmp@[n - 1 - j],
            ));
            assert(out@ =~= old(out)@ + tmp@.reverse().take(j + 1));
        }
        j = j + 1;
    }
    proof {
        assert(tmp@.reverse().take(n as int) =~= tmp@.reverse());
    }
}

/// Parse the number standing at `pos`, if any: its value and the
/// position just past its digits.
pub fn parse_u64(b: &Vec<u8>, pos: usize) -> (r: Option<(u64, usize)>)
    requires
        pos <= b@.len(),
    ensures
        match r {
            Some(v_end) => num_at(b@, pos as int, v_end.0, v_end.1 as int),
            None => forall|v: u64, end: int| !num_at(b@, pos as int, v, end),
        },
{
    if pos >= b.len() || !(0x30 <= b[pos] && b[pos] <= 0x39) {
        proof {
            assert forall|v: u64, end: int| !num_at(b@, pos as int, v, end) by {
                if num_at(b@, pos as int, v, end) {
                    lemma_dec_rep_canonical(v as nat);
                    assert(b@[pos as int] == b@.subrange(pos as int, end)[0]);
                }
            }
        }
        return None;
    }

    if b[pos] == 0x30 {
        if pos + 1 == b.len() || !(0x30 <= b[pos + 1] && b[pos + 1] <= 0x39) {
            proof {
                assert(b@.subrange(pos as int, pos + 1) =~= dec_rep(0));
            }
            return Some((0, pos + 1));
        }
        proof {
            assert forall|v: u64, end: int| !num_at(b@, pos as int, v, end) by {
                if num_at(b@, pos as int, v, end) {
                    lemma_dec_rep_canonical(v as nat);
                    assert(b@.subrange(pos as int, end)[0] == b@[pos as int]);
                    assert(end == pos + 1);
                }
            }
        }
        return None;
    }

    let mut acc: u64 = 0;
    let mut i: usize = pos;
    while i < b.len() && 0x30 <= b[i] && b[i] <= 0x39
        invariant
            pos <= i <= b@.len(),
            pos < b@.len(),
            0x30 < b@[pos as int] <= 0x39,
            i > pos ==> canonical_digits(b@.subrange(pos as int, i as int)),
            i > pos ==> acc as int == dec_value(b@.subrange(pos as int, i as int)),
            i == pos ==> acc == 0,
            forall|k: int| pos <= k < i ==> is_digit(#[trigger] b@[k]),
        decreases b@.len() - i,
    {
        let d: u8 = b[i] - 0x30;
        let ghost prefix = b@.subrange(pos as int, i as int);

        if acc > (u64::MAX - d as u64) / 10 {
            proof {
                assert(acc * 10 + d > u64::MAX) by (nonlinear_arith)
                    requires
                        acc > (u64::MAX - d as u64) / 10,
                        0 <= d <= 9,
                ;
                assert forall|v: u64, end: int| !num_at(b@, pos as int, v, end) by {
                    if num_at(b@, pos as int, v, end) {
                        lemma_dec_rep_canonical(v as nat);
                        if end <= i {
                            assert(is_digit(b@[end]));
                        } else {
                            let w = b@.subrange(pos as int, end).take(i - pos + 1);
                            assert(w =~= b@.subrange(pos as int, i + 1));
                            lemma_dec_value_take_le(b@.subrange(pos as int, end), i - pos + 1);
                            lemma_dec_value_rep(v as nat);
                            assert(b@.subrange(pos as int, i + 1).drop_last() =~= prefix);
                            assert(dec_value(b@.subrange(pos as int, i + 1)) == acc * 10 + d);
                        }
                    }
                }
            }
            return None;
        }

        proof {
            assert(acc * 10 + d <= u64::MAX) by (nonlinear_arith)
                requires
                    acc <= (u64::MAX - d as u64) / 10,
                    0 <= d <= 9,
            ;
            let nxt = b@.subrange(pos as int, i + 1);
            assert(nxt.drop_last() =~= prefix);
            assert(nxt.last() == b@[i as int]);
            assert(i > pos ==> dec_value(prefix) == acc);
            assert(i == pos ==> dec_value(prefix) == 0);
            assert(dec_value(nxt) == acc * 10 + d);
            assert(nxt[0] == b@[pos as int]);
        }
        acc = acc * 10 + d as u64;
        i = i + 1;
    }

    proof {
        assert(canonical_digits(b@.subrange(pos as int, i as int)));
        lemma_rep_dec_value(b@.subrange(pos as int, i as int));
    }
    Some((acc, i))
}

/// The string delimiter byte (`"`).
pub const QUOTE: u8 = 0x22;
/// The escape byte (`\`).
pub const BACKSLASH: u8 = 0x5c;

/// How one content byte appears inside a string: delimiter and escape
/// bytes are escaped, everything else stands for itself.
pub open spec fn esc_one(c: u8) -> Seq<u8> {
    if c == QUOTE || c == BACKSLASH {
        seq![BACKSLASH, c]
    } else {
        seq![c]
    }
}

/// The escaped form of a byte string's content.
pub open spec fn esc_bytes(s: Seq<u8>) -> Seq<u8>
    decreases s.len(),
{
    if s.len() == 0 {
        Seq::empty()
    } else {
        esc_one(s[0]) + esc_bytes(s.drop_first())
    }
}

/// A quoted, escaped string.
pub open spec fn json_string(s: Seq<u8>) -> Seq<u8> {
    seq![QUOTE] + esc_bytes(s) + seq![QUOTE]
}

/// Escaping distributes over appending one byte.
pub proof fn lemma_esc_append(s: Seq<u8>, c: u8)
    ensures
        esc_bytes(s.push(c)) == esc_bytes(s) + esc_one(c),
    decreases s.len(),
{
    if s.len() == 0 {
        assert(s.push(c).drop_first() =~= Seq::<u8>::empty());
        assert(esc_bytes(Seq::<u8>::empty()) == Seq::<u8>::empty());
        assert(s =~= Seq::<u8>::empty());
        assert(s.push(c)[0] == c);
        assert(esc_bytes(s.push(c)) == esc_one(c) + Seq::<u8>::empty());
        assert(esc_one(c) + Seq::<u8>::empty() =~= esc_one(c));
        assert(esc_bytes(s) + esc_one(c) =~= esc_one(c));
    } else {
        assert(s.push(c).drop_first() =~= s.drop_first().push(c));
        lemma_esc_append(s.drop_first(), c);
        assert(s.push(c)[0] == s[0]);
        assert(esc_one(s[0]) + (esc_bytes(s.drop_first()) + esc_one(c)) =~= (esc_one(s[0])
            + esc_bytes(s.drop_first())) + esc_one(c));
    }
}

/// The string-content parser: consumes escaped content up to and
/// including the closing delimiter, returning the content and the
/// position just past the delimiter.
pub open spec fn parse_str_content(b: Seq<u8>, i: int) -> Option<(Seq<u8>, int)>
    decreases b.len() - i,
    when 0 <= i <= b.len()
{
    if i >= b.len() {
        None
    } else if b[i] == QUOTE {
        Some((Seq::empty(), i + 1))
    } else if b[i] == BACKSLASH {
        if i + 2 <= b.len() && (b[i + 1] == QUOTE || b[i + 1] == BACKSLASH) {
            match parse_str_content(b, i + 2) {
                Some(rest) => Some((seq![b[i + 1]] + rest.0, rest.1)),
                None => None,
            }
        } else {
            None
        }
    } else {
        match parse_str_content(b, i + 1) {
            Some(rest) => Some((seq![b[i]] + rest.0, rest.1)),
            None => None,
        }
    }
}

/// Where escaped content followed by the closing delimiter stands, the
/// content parser finds exactly that content.
pub proof fn lemma_parse_content_complete(b: Seq<u8>, i: int, s: Seq<u8>)
    requires
        0 <= i,
        i + esc_bytes(s).len() + 1 <= b.len(),
        b.subrange(i, i + esc_bytes(s).len() + 1) == esc_bytes(s) + seq![QUOTE],
    ensures
        parse_str_content(b, i) == Some((s, i + esc_bytes(s).len() + 1)),
    decreases s.len(),
{
    let w = b.subrange(i, i + esc_bytes(s).len() + 1);
    if s.len() == 0 {
        assert(b[i] == w[0]);
    } else {
        let c = s[0];
        let rest = s.drop_first();
        assert(esc_bytes(s) == esc_one(c) + esc_bytes(rest));
        let t = esc_bytes(rest) + seq![QUOTE];
        if c == QUOTE || c == BACKSLASH {
            assert(esc_bytes(s).len() == 2 + esc_bytes(rest).len());
            assert(b[i] == w[0] && w[0] == BACKSLASH);
            assert(b[i + 1] == w[1] && w[1] == c);
            assert forall|k: int|
                0 <= k < t.len() implies b.subrange(i + 2, i + 2 + t.len())[k] == t[k] by {
                assert(b.subrange(i + 2, i + 2 + t.len())[k] == b[i + 2 + k]);
                assert(b[i + 2 + k] == w[k + 2]);
                if k < esc_bytes(rest).len() {
                    assert(w[k + 2] == esc_bytes(s)[k + 2]);
                    assert(esc_bytes(s)[k + 2] == esc_bytes(rest)[k]);
                } else {
                    assert(w[k + 2] == QUOTE);
                }
            }
            assert(b.subrange(i + 2, i + 2 + t.len()) =~= t);
            lemma_parse_content_complete(b, i + 2, rest);
            assert(seq![b[i + 1]] + rest =~= s);
        } else {
            assert(esc_bytes(s).len() == 1 + esc_bytes(rest).len());
            assert(b[i] == w[0] && w[0] == c);
            assert forall|k: int|
                0 <= k < t.len() implies b.subrange(i + 1, i + 1 + t.len())[k] == t[k] by {
                assert(b.subrange(i + 1, i + 1 + t.len())[k] == b[i + 1 + k]);
                assert(b[i + 1 + k] == w[k + 1]);
                if k < esc_bytes(rest).len() {
                    assert(w[k + 1] == esc_bytes(s)[k + 1]);
                    assert(esc_bytes(s)[k + 1] == esc_bytes(rest)[k]);
                } else {
                    assert(w[k + 1] == QUOTE);
                }
            }
            assert(b.subrange(i + 1, i + 1 + t.len()) =~= t);
            lemma_parse_content_complete(b, i + 1, rest);
            assert(seq![b[i]] + rest =~= s);
        }
    }
}

/// What the content parser accepts is the escaped form of its result,
/// closed by the delimiter.
pub proof fn lemma_parse_content_sound(b: Seq<u8>, i: int)
    requires
        0 <= i <= b.len(),
        parse_str_content(b, i) is Some,
    ensures
        ({
            let (s, e) = parse_str_content(b, i)->Some_0;
            &&& i < e <= b.len()
            &&& e == i + esc_bytes(s).len() + 1
            &&& b.subrange(i, e) == esc_bytes(s) + seq![QUOTE]
        }),
    decreases b.len() - i,
{
    let (s, e) = parse_str_content(b, i)->Some_0;
    if b[i] == QUOTE {
        assert(b.subrange(i, i + 1) =~= esc_bytes(Seq::empty()) + seq![QUOTE]);
    } else if b[i] == BACKSLASH {
        let (s2, _) = parse_str_content(b, i + 2)->Some_0;
        lemma_parse_content_sound(b, i + 2);
        assert(s == seq![b[i + 1]] + s2);
        assert(s[0] == b[i + 1] && s.drop_first() =~= s2);
        assert(esc_bytes(s) == esc_one(b[i + 1]) + esc_bytes(s2));
        assert(b.subrange(i, e) =~= seq![b[i], b[i + 1]] + b.subrange(i + 2, e));
        assert(seq![b[i], b[i + 1]] + (esc_bytes(s2) + seq![QUOTE]) =~= esc_bytes(s)
            + seq![QUOTE]);
    } else {
        let (s2, _) = parse_str_content(b, i + 1)->Some_0;
        lemma_parse_content_sound(b, i + 1);
        assert(s == seq![b[i]] + s2);
        assert(s[0] == b[i] && s.drop_first() =~= s2);
        assert(esc_bytes(s) == esc_one(b[i]) + esc_bytes(s2));
        assert(b.subrange(i, e) =~= seq![b[i]] + b.subrange(i + 1, e));
        assert(seq![b[i]] + (esc_bytes(s2) + seq![QUOTE]) =~= esc_bytes(s) + seq![QUOTE]);
    }
}

/// Append a quoted, escaped string.
pub fn emit_string(out: &mut Vec<u8>, s: &Vec<u8>)
    ensures
        final(out)@ == old(out)@ + json_string(s@),
{
    out.push(QUOTE);
    let ghost base = out@;
    proof {
        assert(esc_bytes(s@.take(0)) =~= Seq::<u8>::empty());
        assert(out@ =~= base + esc_bytes(s@.take(0)));
    }
    let mut i: usize = 0;
    while i < s.len()
        invariant
            i <= s@.len(),
            base == old(out)@ + seq![QUOTE],
            out@ == base + esc_bytes(s@.take(i as int)),
        decreases s@.len() - i,
    {
        let c = s[i];
        if c == QUOTE || c == BACKSLASH {
            out.push(BACKSLASH);
            out.push(c);
        } else {
            out.push(c);
        }
        proof {
            assert(s@.take(i + 1) =~= s@.take(i as int).push(s@[i as int]));
            lemma_esc_append(s@.take(i as int), s@[i as int]);
            assert(out@ =~= base + esc_bytes(s@.take(i + 1)));
        }
        i = i + 1;
    }
    out.push(QUOTE);
    proof {
        assert(s@.take(s@.len() as int) =~= s@);
        assert(out@ =~= old(out)@ + json_string(s@));
    }
}

/// Parse the quoted string standing at `pos`, if any: its unescaped
/// content and the position just past the closing delimiter.
pub fn parse_string(b: &Vec<u8>, pos: usize) -> (r: Option<(Vec<u8>, usize)>)
    requires
        pos <= b@.len(),
    ensures
        match r {
            Some(v_end) => {
                &&& pos < b@.len()
                &&& b@[pos as int] == QUOTE
                &&& parse_str_content(b@, pos + 1) == Some((v_end.0@, v_end.1 as int))
                &&& pos < v_end.1 <= b@.len()
            },
            None => pos == b@.len() || b@[pos as int] != QUOTE || parse_str_content(
                b@,
                pos + 1,
            ) is None,
        },
{
    if pos == b.len() || b[pos] != QUOTE {
        return None;
    }

    let mut acc: Vec<u8> = Vec::new();
    let mut i: usize = pos + 1;
    proof {
        if parse_str_content(b@, pos + 1) is Some {
            let rest = parse_str_content(b@, pos + 1)->Some_0;
            assert(acc@ + rest.0 =~= rest.0);
        }
    }
    loop
        invariant
            pos + 1 <= i <= b@.len(),
            pos < b@.len(),
            b@[pos as int] == QUOTE,
            match parse_str_content(b@, i as int) {
                Some(rest) => parse_str_content(b@, pos + 1) == Some((acc@ + rest.0, rest.1)),
                None => parse_str_content(b@, pos + 1) is None,
            },
        decreases b@.len() - i,
    {
        if i == b.len() {
            return None;
        }
        let c = b[i];
        if c == QUOTE {
            proof {
                assert(parse_str_content(b@, i as int) == Some((Seq::<u8>::empty(), i + 1)));
                assert(acc@ + Seq::<u8>::empty() =~= acc@);
                assert(parse_str_content(b@, pos + 1) == Some((acc@, i + 1)));
                lemma_parse_content_sound(b@, pos + 1);
            }
            return Some((acc, i + 1));
        }
        if c == BACKSLASH {
            if i + 1 == b.len() {
                return None;
            }
            let d = b[i + 1];
            if d == QUOTE || d == BACKSLASH {
                proof {
                    assert(parse_str_content(b@, i as int) == (match parse_str_content(b@, i + 2) {
                        Some(rest) => Some((seq![d] + rest.0, rest.1)),
                        None => None,
                    }));
                }
                acc.push(d);
                proof {
                    if parse_str_content(b@, i + 2) is Some {
                        let rest = parse_str_content(b@, i + 2)->Some_0;
                        assert(acc@ + rest.0 =~= acc@.drop_last() + (seq![d] + rest.0));
                    }
                }
                i = i + 2;
            } else {
                return None;
            }
        } else {
            proof {
                assert(parse_str_content(b@, i as int) == (match parse_str_content(b@, i + 1) {
                    Some(rest) => Some((seq![c] + rest.0, rest.1)),
                    None => None,
                }));
            }
            acc.push(c);
            proof {
                if parse_str_content(b@, i + 1) is Some {
                    let rest = parse_str_content(b@, i + 1)->Some_0;
                    assert(acc@ + rest.0 =~= acc@.drop_last() + (seq![c] + rest.0));
                }
            }
            i = i + 1;
        }
    }
}

/// The ASCII bytes of `true` and `false`.
pub open spec fn bool_lit(v: bool) -> Seq<u8> {
    if v {
        seq![0x74u8, 0x72u8, 0x75u8, 0x65u8]
    } else {
        seq![0x66u8, 0x61u8, 0x6cu8, 0x73u8, 0x65u8]
    }
}

/// A boolean literal stands at `pos` in `b`, ending just before `end`.
pub open spec fn bool_at(b: Seq<u8>, pos: int, v: bool, end: int) -> bool {
    &&& 0 <= pos <= b.len()
    &&& end == pos + bool_lit(v).len()
    &&& end <= b.len()
    &&& b.subrange(pos, end) == bool_lit(v)
}

/// At one position there is at most one boolean literal.
pub proof fn lemma_bool_at_unique(b: Seq<u8>, pos: int, v1: bool, e1: int, v2: bool, e2: int)
    requires
        bool_at(b, pos, v1, e1),
        bool_at(b, pos, v2, e2),
    ensures
        v1 == v2,
        e1 == e2,
{
    if v1 != v2 {
        assert(b[pos] == b.subrange(pos, e1)[0]);
        assert(b[pos] == b.subrange(pos, e2)[0]);
    }
}

/// Append a boolean literal.
pub fn emit_bool(out: &mut Vec<u8>, v: bool)
    ensures
        final(out)@ == old(out)@ + bool_lit(v),
{
    if v {
        out.push(0x74);
        out.push(0x72);
        out.push(0x75);
        out.push(0x65);
    } else {
        out.push(0x66);
        out.push(0x61);
        out.push(0x6c);
        out.push(0x73);
        out.push(0x65);
    }
    proof {
        assert(out@ =~= old(out)@ + bool_lit(v));
    }
}

/// Compare the bytes at `pos` with an expected literal; on a match,
/// return the position just past it.
pub fn expect_bytes(b: &Vec<u8>, pos: usize, lit: &Vec<u8>) -> (r: Option<usize>)
    requires
        pos <= b@.len(),
    ensures
        match r {
            Some(end) => {
                &&& end == pos + lit@.len()
                &&& end <= b@.len()
                &&& b@.subrange(pos as int, end as int) == lit@
            },
            None => !(pos + lit@.len() <= b@.len() && b@.subrange(
                pos as int,
                pos + lit@.len() as int,
            ) == lit@),
        },
{
    if lit.len() > b.len() - pos {
        return None;
    }
    let end = pos + lit.len();
    let mut j: usize = pos;
    while j < end
        invariant
            pos <= j <= end,
            end == pos + lit@.len(),
            end <= b@.len(),
            forall|k: int| 0 <= k < j - pos ==> b@[pos + k] == lit@[k],
        decreases end - j,
    {
        if b[j] != lit[j - pos] {
            proof {
                assert(b@.subrange(pos as int, end as int) != lit@) by {
                    assert(b@.subrange(pos as int, end as int)[j - pos] == b@[j as int]);
                }
            }
            return None;
        }
        j = j + 1;
    }
    proof {
        assert(b@.subrange(pos as int, end as int) =~= lit@);
    }
    Some(end)
}

/// Parse the boolean literal standing at `pos`, if any.
pub fn parse_bool(b: &Vec<u8>, pos: usize) -> (r: Option<(bool, usize)>)
    requires
        pos <= b@.len(),
    ensures
        match r {
            Some(v_end) => bool_at(b@, pos as int, v_end.0, v_end.1 as int),
            None => forall|v: bool, end: int| !bool_at(b@, pos as int, v, end),
        },
{
    let mut lit_true: Vec<u8> = Vec::new();
    lit_true.push(0x74);
    lit_true.push(0x72);
    lit_true.push(0x75);
    lit_true.push(0x65);
    proof {
        assert(lit_true@ =~= bool_lit(true));
    }
    if let Some(end) = expect_bytes(b, pos, &lit_true) {
        return Some((true, end));
    }

    let mut lit_false: Vec<u8> = Vec::new();
    lit_false.push(0x66);
    lit_false.push(0x61);
    lit_false.push(0x6c);
    lit_false.push(0x73);
    lit_false.push(0x65);
    proof {
        assert(lit_false@ =~= bool_lit(false));
    }
    if let Some(end) = expect_bytes(b, pos, &lit_false) {
        return Some((false, end));
    }
    None
}

/// Splitting a known tail: where the bytes from `p` on read as `x`
/// followed by `r`, the first `x.len()` bytes are `x` and the rest is
/// `r`.
pub proof fn lemma_tail_split(s: Seq<u8>, p: int, x: Seq<u8>, r: Seq<u8>)
    requires
        0 <= p <= s.len(),
        s.subrange(p, s.len() as int) == x + r,
    ensures
        p + x.len() + r.len() == s.len(),
        s.subrange(p, p + x.len() as int) == x,
        s.subrange(p + x.len() as int, s.len() as int) == r,
{
    let tail = s.subrange(p, s.len() as int);
    assert(tail.len() == x.len() + r.len());
    let xl = x.len() as int;
    assert forall|k: int| 0 <= k < xl implies s.subrange(p, p + xl)[k] == x[k] by {
        assert(s.subrange(p, p + xl)[k] == s[p + k]);
        assert(tail[k] == s[p + k]);
        assert(tail[k] == (x + r)[k]);
        assert((x + r)[k] == x[k]);
    }
    assert(s.subrange(p, p + xl) =~= x);
    assert forall|k: int| 0 <= k < r.len() implies s.subrange(p + xl, s.len() as int)[k] == r[k] by {
        assert(s.subrange(p + xl, s.len() as int)[k] == s[p + xl + k]);
        assert(tail[xl + k] == s[p + xl + k]);
        assert(tail[xl + k] == (x + r)[xl + k]);
        assert((x + r)[xl + k] == r[k]);
    }
    assert(s.subrange(p + xl, s.len() as int) =~= r);
}

/// Joining adjacent subranges.
pub proof fn lemma_subrange_join(s: Seq<u8>, a: int, m: int, e: int)
    requires
        0 <= a <= m <= e <= s.len(),
    ensures
        s.subrange(a, e) == s.subrange(a, m) + s.subrange(m, e),
{
    assert(s.subrange(a, e) =~= s.subrange(a, m) + s.subrange(m, e));
}

/// Append a copy of the given bytes.
pub fn append_bytes(out: &mut Vec<u8>, v: &Vec<u8>)
    ensures
        final(out)@ == old(out)@ + v@,
{
    let mut i: usize = 0;
    while i < v.len()
        invariant
            i <= v@.len(),
            out@ == old(out)@ + v@.take(i as int),
        decreases v@.len() - i,
    {
        out.push(v[i]);
        proof {
            assert(v@.take(i + 1) =~= v@.take(i as int).push(v@[i as int]));
            assert(out@ =~= old(out)@ + v@.take(i + 1));
        }
        i = i + 1;
    }
    proof {
        assert(v@.take(v@.len() as int) =~= v@);
    }
}

/// Splitting a known span: where the bytes from `p` to `e` read as `x`
/// followed by `r`, the first `x.len()` bytes are `x` and the rest is
/// `r`.
pub proof fn lemma_split_at(s: Seq<u8>, p: int, e: int, x: Seq<u8>, r: Seq<u8>)
    requires
        0 <= p <= e <= s.len(),
        s.subrange(p, e) == x + r,
    ensures
        p + x.len() + r.len() == e,
        s.subrange(p, p + x.len() as int) == x,
        s.subrange(p + x.len() as int, e) == r,
{
    let span = s.subrange(p, e);
    assert(span.len() == x.len() + r.len());
    let xl = x.len() as int;
    assert forall|k: int| 0 <= k < xl implies s.subrange(p, p + xl)[k] == x[k] by {
        assert(s.subrange(p, p + xl)[k] == s[p + k]);
        assert(span[k] == s[p + k]);
        assert(span[k] == (x + r)[k]);
        assert((x + r)[k] == x[k]);
    }
    assert(s.subrange(p, p + xl) =~= x);
    assert forall|k: int| 0 <= k < r.len() implies s.subrange(p + xl, e)[k] == r[k] by {
        assert(s.subrange(p + xl, e)[k] == s[p + xl + k]);
        assert(span[xl + k] == s[p + xl + k]);
        assert(span[xl + k] == (x + r)[xl + k]);
        assert((x + r)[xl + k] == r[k]);
    }
    assert(s.subrange(p + xl, e) =~= r);
}

} // verus!
