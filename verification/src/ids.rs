//! Identity: UUIDs, how they are spelled, how they are minted.

use vstd::arithmetic::power::*;
use vstd::prelude::*;
use vstd::string::*;

use crate::text::to_chars;

verus! {

/// A UUID, as the big-endian number of its 16 bytes.
#[derive(Debug, Clone, Copy, PartialEq, Eq, Structural)]
pub struct Uuid {
    pub value: u128,
}

/// The number that bytes spell, most significant first.
pub open spec fn big_endian(bytes: Seq<u8>) -> nat
    decreases bytes.len(),
{
    if bytes.len() == 0 {
        0
    } else {
        big_endian(bytes.drop_last()) * 256 + bytes.last() as nat
    }
}

proof fn pow_step(n: nat)
    ensures
        pow(256, n + 1) == pow(256, n) * 256,
        pow(256, n) > 0,
{
    lemma_pow_positive(256, n);
    lemma_pow1(256);
    lemma_pow_adds(256, n, 1);
}

proof fn big_endian_bound(bytes: Seq<u8>)
    ensures
        big_endian(bytes) < pow(256, bytes.len()),
    decreases bytes.len(),
{
    if bytes.len() == 0 {
        lemma_pow0(256);
    } else {
        big_endian_bound(bytes.drop_last());
        pow_step((bytes.len() - 1) as nat);
        let p = pow(256, (bytes.len() - 1) as nat);
        assert(big_endian(bytes.drop_last()) + 1 <= p);
        assert(big_endian(bytes.drop_last()) * 256 + 256 <= p * 256) by (nonlinear_arith)
            requires
                big_endian(bytes.drop_last()) + 1 <= p,
        ;
    }
}

proof fn pow_16()
    ensures
        pow(256, 16) == 0x1_0000_0000_0000_0000_0000_0000_0000_0000int,
{
    reveal_with_fuel(pow, 17);
}

impl Uuid {
    /// The UUID that these bytes are.
    pub fn from_bytes(bytes: [u8; 16]) -> (r: Self)
        ensures
            r.value == big_endian(bytes@),
    {
        let mut v: u128 = 0;
        let mut i: usize = 0;
        while i < 16
            invariant
                i <= 16,
                v == big_endian(bytes@.take(i as int)),
            decreases 16 - i,
        {
            proof {
                assert(bytes@.take(i + 1).drop_last() =~= bytes@.take(i as int));
                big_endian_bound(bytes@.take(i + 1));
                lemma_pow_increases(256, (i + 1) as nat, 16);
                pow_16();
            }
            v = v * 256 + bytes[i] as u128;
            i += 1;
        }
        proof {
            assert(bytes@.take(16) =~= bytes@);
        }
        Uuid { value: v }
    }

    /// The bytes of the UUID.
    pub fn as_bytes(&self) -> (r: [u8; 16])
        ensures
            big_endian(r@) == self.value,
    {
        let mut out: [u8; 16] = [0u8; 16];
        let mut v: u128 = self.value;
        let mut i: usize = 16;
        proof {
            pow_16();
            lemma_pow0(256);
        }
        while i > 0
            invariant
                i <= 16,
                v < pow(256, i as nat),
                self.value == v * pow(256, (16 - i) as nat) + big_endian(
                    out@.subrange(i as int, 16),
                ),
            decreases i,
        {
            let ghost before = out@.subrange(i as int, 16);
            let b: u8 = (v % 256) as u8;
            out[i - 1] = b;
            proof {
                let p = pow(256, (16 - i) as nat);
                pow_step((16 - i) as nat);
                pow_step((i - 1) as nat);
                let after = out@.subrange(i - 1, 16);
                assert(after =~= seq![b] + before);
                big_endian_front(b, before);
                assert(v == (v / 256) * 256 + b);
                assert(v * p + big_endian(before) == (v / 256) * (p * 256) + (b * p + big_endian(
                    before,
                ))) by (nonlinear_arith)
                    requires
                        v == (v / 256) * 256 + b,
                ;
                let q = pow(256, (i - 1) as nat);
                assert(v / 256 < q) by (nonlinear_arith)
                    requires
                        v < q * 256,
                        v == (v / 256) * 256 + b,
                        0 <= b,
                ;
            }
            v = v / 256;
            i -= 1;
        }
        proof {
            lemma_pow0(256);
            assert(out@.subrange(0, 16) =~= out@);
        }
        out
    }
}

proof fn big_endian_front(b: u8, rest: Seq<u8>)
    ensures
        big_endian(seq![b] + rest) == b * pow(256, rest.len()) + big_endian(rest),
    decreases rest.len(),
{
    let all = seq![b] + rest;
    if rest.len() == 0 {
        assert(all.drop_last() =~= Seq::<u8>::empty());
        assert(big_endian(Seq::<u8>::empty()) == 0);
        assert(all.last() == b);
        lemma_pow0(256);
    } else {
        assert(all.last() == rest.last());
        assert(all.drop_last() =~= seq![b] + rest.drop_last());
        big_endian_front(b, rest.drop_last());
        pow_step((rest.len() - 1) as nat);
        let p = pow(256, (rest.len() - 1) as nat);
        assert((b * p + big_endian(rest.drop_last())) * 256 == b * (p * 256) + big_endian(
            rest.drop_last(),
        ) * 256) by (nonlinear_arith);
    }
}

/// The value of a hexadecimal digit.
pub open spec fn hex_value(c: char) -> Option<int> {
    if '0' <= c <= '9' {
        Some(c as int - 48)
    } else if 'a' <= c <= 'f' {
        Some(c as int - 87)
    } else if 'A' <= c <= 'F' {
        Some(c as int - 55)
    } else {
        None
    }
}

/// The value of a hexadecimal digit.
fn hex_digit(c: char) -> (r: Option<u8>)
    ensures
        match r {
            Some(v) => hex_value(c) == Some(v as int) && v < 16,
            None => hex_value(c) is None,
        },
{
    let n: u32 = c as u32;
    if 48 <= n && n <= 57 {
        Some((n - 48) as u8)
    } else if 97 <= n && n <= 102 {
        Some((n - 87) as u8)
    } else if 65 <= n && n <= 70 {
        Some((n - 55) as u8)
    } else {
        None
    }
}

/// Whether `i` is the index of a dash in the dashed form.
pub open spec fn dash_place(i: int) -> bool {
    i == 8 || i == 13 || i == 18 || i == 23
}

/// The 32 digits of a UUID's text: plain, or with four dashes in their places.
pub open spec fn uuid_digits(body: Seq<char>) -> Option<Seq<char>> {
    if body.len() == 32 && (forall|i: int|
        0 <= i < 32 ==> hex_value(#[trigger] body[i]) is Some) {
        Some(body)
    } else if body.len() == 36 && (forall|i: int|
        0 <= i < 36 ==> (if dash_place(i) {
            #[trigger] body[i] == '-'
        } else {
            hex_value(body[i]) is Some
        })) {
        Some(without_dashes(body))
    } else {
        None
    }
}

/// The characters other than `-`.
pub open spec fn without_dashes(s: Seq<char>) -> Seq<char>
    decreases s.len(),
{
    if s.len() == 0 {
        s
    } else if s.last() == '-' {
        without_dashes(s.drop_last())
    } else {
        without_dashes(s.drop_last()).push(s.last())
    }
}

/// The number that hexadecimal digits spell.
pub open spec fn hex_number(s: Seq<char>) -> nat
    decreases s.len(),
{
    if s.len() == 0 {
        0
    } else {
        hex_number(s.drop_last()) * 16 + (match hex_value(s.last()) {
            Some(v) => v as nat,
            None => 0,
        })
    }
}

/// The text between a pair of braces around it, or the text as it is.
pub open spec fn unbraced(s: Seq<char>) -> Seq<char> {
    if s.len() >= 2 && s[0] == '{' && s.last() == '}' {
        s.subrange(1, s.len() - 1)
    } else {
        s
    }
}

/// The UUID that a text spells.
pub open spec fn uuid_of(s: Seq<char>) -> Option<int> {
    match uuid_digits(unbraced(s)) {
        Some(d) => Some(hex_number(d) as int),
        None => None,
    }
}

/// How many dashes there are.
spec fn dashes_in(s: Seq<char>) -> nat
    decreases s.len(),
{
    if s.len() == 0 {
        0
    } else {
        dashes_in(s.drop_last()) + (if s.last() == '-' {
            1nat
        } else {
            0
        })
    }
}

/// The places up to `n` at which a dash may stand.
spec fn places_upto(n: int) -> nat {
    (if n > 8 {
        1nat
    } else {
        0
    }) + (if n > 13 {
        1nat
    } else {
        0
    }) + (if n > 18 {
        1nat
    } else {
        0
    }) + (if n > 23 {
        1nat
    } else {
        0
    })
}

proof fn dashes_facts(s: Seq<char>)
    requires
        forall|k: int| 0 <= k < s.len() && #[trigger] s[k] == '-' ==> dash_place(k),
    ensures
        dashes_in(s) + without_dashes(s).len() == s.len(),
        dashes_in(s) <= places_upto(s.len() as int),
        dashes_in(s) == places_upto(s.len() as int) ==> (forall|k: int|
            0 <= k < s.len() && dash_place(k) ==> #[trigger] s[k] == '-'),
        dashes_in(s) == 0 ==> without_dashes(s) == s && (forall|k: int|
            0 <= k < s.len() ==> #[trigger] s[k] != '-'),
    decreases s.len(),
{
    if s.len() > 0 {
        let t = s.drop_last();
        assert forall|k: int| 0 <= k < t.len() && #[trigger] t[k] == '-' implies dash_place(k) by {
            assert(s[k] == t[k]);
        }
        dashes_facts(t);
        if dashes_in(s) == places_upto(s.len() as int) {
            assert forall|k: int| 0 <= k < s.len() && dash_place(k) implies #[trigger] s[k]
                == '-' by {
                if k < t.len() {
                    assert(s[k] == t[k]);
                }
            }
        }
        if dashes_in(s) == 0 {
            assert(without_dashes(s) =~= s);
            assert forall|k: int| 0 <= k < s.len() implies #[trigger] s[k] != '-' by {
                if k < t.len() {
                    assert(s[k] == t[k]);
                }
            }
        }
    }
}

proof fn hex_number_bound(s: Seq<char>)
    ensures
        hex_number(s) < pow(16, s.len()),
    decreases s.len(),
{
    if s.len() == 0 {
        lemma_pow0(16);
    } else {
        hex_number_bound(s.drop_last());
        lemma_pow1(16);
        lemma_pow_adds(16, (s.len() - 1) as nat, 1);
        let p = pow(16, (s.len() - 1) as nat);
        let h = hex_number(s.drop_last());
        assert(h * 16 + 16 <= p * 16) by (nonlinear_arith)
            requires
                h + 1 <= p,
        ;
    }
}

proof fn pow16_32()
    ensures
        pow(16, 32) == 0x1_0000_0000_0000_0000_0000_0000_0000_0000int,
{
    reveal_with_fuel(pow, 33);
}

/// Parses a UUID as PostgreSQL's own input does: the dashed form and the bare
/// form of 32 digits, each optionally in braces; nothing else.
pub fn parse_uuid(s: &str) -> (r: Option<Uuid>)
    ensures
        match r {
            Some(u) => uuid_of(s@) == Some(u.value as int),
            None => uuid_of(s@) is None,
        },
{
    let all = to_chars(s);
    let mut from: usize = 0;
    let mut to: usize = all.len();
    if all.len() >= 2 && all[0] == '{' && all[all.len() - 1] == '}' {
        from = 1;
        to = all.len() - 1;
    }
    let ghost body = unbraced(s@);
    assert(body =~= all@.subrange(from as int, to as int));
    let mut value: u128 = 0;
    let mut digits: usize = 0;
    let mut dashes: usize = 0;
    let mut i: usize = from;
    proof {
        assert(body.take(0) =~= Seq::<char>::empty());
    }
    while i < to
        invariant
            from <= i <= to <= all.len(),
            body == unbraced(s@),
            body == all@.subrange(from as int, to as int),
            digits <= 32,
            dashes <= i - from,
            digits == without_dashes(body.take(i - from)).len(),
            dashes == dashes_in(body.take(i - from)),
            value == hex_number(without_dashes(body.take(i - from))),
            forall|k: int| 0 <= k < i - from && #[trigger] body[k] == '-' ==> dash_place(k),
            forall|k: int|
                0 <= k < i - from && #[trigger] body[k] != '-' ==> hex_value(body[k]) is Some,
        decreases to - i,
    {
        let k: usize = i - from;
        let c = all[i];
        proof {
            assert(c == body[k as int]);
            assert(body.take(k + 1).drop_last() =~= body.take(k as int));
        }
        if c == '-' {
            if !(k == 8 || k == 13 || k == 18 || k == 23) {
                assert(uuid_digits(body) is None) by {
                    assert(!dash_place(k as int));
                    assert(hex_value(body[k as int]) is None);
                }
                return None;
            }
            dashes += 1;
        } else {
            if digits == 32 {
                proof {
                    let t = body.take(k + 1);
                    assert forall|j: int| 0 <= j < t.len() && #[trigger] t[j]
                        == '-' implies dash_place(j) by {
                        assert(t[j] == body[j]);
                    }
                    dashes_facts(t);
                    too_many_digits(body, k as int);
                }
                return None;
            }
            match hex_digit(c) {
                Some(d) => {
                    proof {
                        let t = without_dashes(body.take(k + 1));
                        assert(t.drop_last() =~= without_dashes(body.take(k as int)));
                        hex_number_bound(t);
                        lemma_pow_increases(16, t.len(), 32);
                        pow16_32();
                    }
                    value = value * 16 + d as u128;
                    digits += 1;
                },
                None => {
                    assert(uuid_digits(body) is None) by {
                        assert(hex_value(body[k as int]) is None);
                        assert(body[k as int] != '-');
                    }
                    return None;
                },
            }
        }
        i += 1;
    }
    proof {
        assert(body.take(to - from) =~= body);
        dashes_facts(body);
    }
    if digits != 32 || !(dashes == 0 || dashes == 4) {
        proof {
            if body.len() == 32 && (forall|j: int|
                0 <= j < 32 ==> hex_value(#[trigger] body[j]) is Some) {
                dashes_zero(body);
            }
            if body.len() == 36 && (forall|j: int|
                0 <= j < 36 ==> (if dash_place(j) {
                    #[trigger] body[j] == '-'
                } else {
                    hex_value(body[j]) is Some
                })) {
                dashes_four(body);
            }
        }
        return None;
    }
    proof {
        if dashes == 0 {
            assert(body.len() == 32);
            assert(uuid_digits(body) == Some(body));
        } else {
            assert(body.len() == 36);
            assert(uuid_digits(body) == Some(without_dashes(body)));
        }
    }
    Some(Uuid { value })
}

/// Digits alone have no dashes.
proof fn dashes_zero(s: Seq<char>)
    requires
        forall|j: int| 0 <= j < s.len() ==> hex_value(#[trigger] s[j]) is Some,
    ensures
        dashes_in(s) == 0,
    decreases s.len(),
{
    if s.len() > 0 {
        let t = s.drop_last();
        assert forall|j: int| 0 <= j < t.len() implies hex_value(#[trigger] t[j]) is Some by {
            assert(t[j] == s[j]);
        }
        dashes_zero(t);
    }
}

/// The dashed form has four dashes.
proof fn dashes_four(s: Seq<char>)
    requires
        forall|j: int|
            0 <= j < s.len() ==> (if dash_place(j) {
                #[trigger] s[j] == '-'
            } else {
                hex_value(s[j]) is Some
            }),
    ensures
        dashes_in(s) == places_upto(s.len() as int),
    decreases s.len(),
{
    if s.len() > 0 {
        let t = s.drop_last();
        assert forall|j: int| 0 <= j < t.len() implies (if dash_place(j) {
            #[trigger] t[j] == '-'
        } else {
            hex_value(t[j]) is Some
        }) by {
            assert(t[j] == s[j]);
        }
        dashes_four(t);
    }
}

/// A 33rd digit makes the text too long.
proof fn too_many_digits(body: Seq<char>, k: int)
    requires
        0 <= k < body.len(),
        without_dashes(body.take(k + 1)).len() == 33,
        dashes_in(body.take(k + 1)) + 33 == k + 1,
        forall|j: int| 0 <= j <= k && #[trigger] body[j] == '-' ==> dash_place(j),
        forall|j: int| 0 <= j < k && #[trigger] body[j] != '-' ==> hex_value(body[j]) is Some,
    ensures
        uuid_digits(body) is None,
{
    if body.len() == 36 && (forall|i: int|
        0 <= i < 36 ==> (if dash_place(i) {
            #[trigger] body[i] == '-'
        } else {
            hex_value(body[i]) is Some
        })) {
        let t = body.take(k + 1);
        assert forall|j: int| 0 <= j < t.len() implies (if dash_place(j) {
            #[trigger] t[j] == '-'
        } else {
            hex_value(t[j]) is Some
        }) by {
            assert(t[j] == body[j]);
        }
        dashes_four(t);
    }
}

/// A digit, or a letter from `a` to `f`.
pub open spec fn lower_hex(c: char) -> bool {
    '0' <= c <= '9' || 'a' <= c <= 'f'
}

/// The digit for a value below 16.
pub open spec fn digit_of(v: int) -> char {
    if v < 10 {
        (v + 48) as char
    } else {
        (v + 87) as char
    }
}

fn make_digit(v: u8) -> (r: char)
    requires
        v < 16,
    ensures
        r == digit_of(v as int),
        hex_value(r) == Some(v as int),
        lower_hex(r),
{
    match v {
        0 => '0',
        1 => '1',
        2 => '2',
        3 => '3',
        4 => '4',
        5 => '5',
        6 => '6',
        7 => '7',
        8 => '8',
        9 => '9',
        10 => 'a',
        11 => 'b',
        12 => 'c',
        13 => 'd',
        14 => 'e',
        _ => 'f',
    }
}

/// The lowercase hexadecimal digits of bytes, two for each.
pub open spec fn hex_of(bytes: Seq<u8>) -> Seq<char>
    decreases bytes.len(),
{
    if bytes.len() == 0 {
        Seq::empty()
    } else {
        hex_of(bytes.drop_last()).push(digit_of(bytes.last() as int / 16)).push(
            digit_of(bytes.last() as int % 16),
        )
    }
}

/// The lowercase hexadecimal digits of bytes, two for each.
pub fn hex(bytes: &[u8]) -> (r: String)
    ensures
        r@ == hex_of(bytes@),
{
    let mut out = String::new();
    let mut i: usize = 0;
    while i < bytes.len()
        invariant
            i <= bytes.len(),
            out@ == hex_of(bytes@.take(i as int)),
        decreases bytes.len() - i,
    {
        let b: u8 = bytes[i];
        assert(bytes@.take(i + 1).drop_last() =~= bytes@.take(i as int));
        out.push(make_digit(b / 16));
        out.push(make_digit(b % 16));
        i += 1;
    }
    assert(bytes@.take(i as int) =~= bytes@);
    out
}

/// The number that a UUID's text spells, its dashes left out.
pub open spec fn spells(text: Seq<char>, value: int) -> bool {
    uuid_of(text) == Some(value)
}

/// The `n` bytes of a number, most significant first.
pub open spec fn bytes_of(v: nat, n: nat) -> Seq<u8>
    decreases n,
{
    if n == 0 {
        Seq::empty()
    } else {
        bytes_of(v / 256, (n - 1) as nat).push((v % 256) as u8)
    }
}

proof fn bytes_of_number(b: Seq<u8>)
    ensures
        bytes_of(big_endian(b), b.len()) == b,
    decreases b.len(),
{
    if b.len() > 0 {
        bytes_of_number(b.drop_last());
        let h = big_endian(b.drop_last());
        let l = b.last();
        assert((h * 256 + l as nat) / 256 == h);
        assert((h * 256 + l as nat) % 256 == l as nat);
        assert(b.drop_last().push(l) =~= b);
    } else {
        assert(bytes_of(big_endian(b), 0) =~= b);
    }
}

/// The digits of the first `n` bytes, with dashes in their places.
pub open spec fn dashed(b: Seq<u8>, n: int) -> Seq<char>
    decreases n,
{
    if n <= 0 {
        Seq::empty()
    } else {
        let before = dashed(b, n - 1);
        let lead = if n == 5 || n == 7 || n == 9 || n == 11 {
            before.push('-')
        } else {
            before
        };
        lead.push(digit_of(b[n - 1] as int / 16)).push(digit_of(b[n - 1] as int % 16))
    }
}

/// The canonical text of a UUID.
pub open spec fn uuid_text(id: Uuid) -> Seq<char> {
    dashed(bytes_of(id.value as nat, 16), 16)
}

impl Uuid {
    /// The canonical dashed spelling, in lowercase.
    pub fn to_text(&self) -> (r: String)
        ensures
            spells(r@, self.value as int),
            r@.len() == 36,
            forall|k: int| 0 <= k < 36 ==> (#[trigger] r@[k] == '-' || lower_hex(r@[k])),
            r@ == uuid_text(*self),
    {
        let bytes = self.as_bytes();
        let mut out = String::new();
        let mut i: usize = 0;
        proof {
            assert(hex_number(Seq::<char>::empty()) == 0);
            assert(big_endian(Seq::<u8>::empty()) == 0);
            assert(without_dashes(Seq::<char>::empty()) =~= Seq::<char>::empty());
            assert(bytes@.take(0) =~= Seq::<u8>::empty());
        }
        while i < 16
            invariant
                i <= 16,
                out@.len() == 2 * i + (if i > 4 {
                    1int
                } else {
                    0
                }) + (if i > 6 {
                    1int
                } else {
                    0
                }) + (if i > 8 {
                    1int
                } else {
                    0
                }) + (if i > 10 {
                    1int
                } else {
                    0
                }),
                hex_number(without_dashes(out@)) == big_endian(bytes@.take(i as int)),
                out@ == dashed(bytes@, i as int),
                forall|k: int|
                    0 <= k < out@.len() ==> (if dash_place(k) {
                        #[trigger] out@[k] == '-'
                    } else {
                        hex_value(out@[k]) is Some && lower_hex(out@[k])
                    }),
            decreases 16 - i,
        {
            let b: u8 = bytes[i];
            if i == 4 || i == 6 || i == 8 || i == 10 {
                let ghost before = out@;
                out.push('-');
                assert(out@.drop_last() =~= before);
                assert(without_dashes(out@) == without_dashes(before));
            }
            let ghost mid = out@;
            let hi = make_digit(b / 16);
            let lo = make_digit(b % 16);
            out.push(hi);
            proof {
                assert(out@.drop_last() =~= mid);
                assert(without_dashes(out@).drop_last() =~= without_dashes(mid));
            }
            let ghost mid2 = out@;
            out.push(lo);
            proof {
                assert(out@.drop_last() =~= mid2);
                assert(without_dashes(out@).drop_last() =~= without_dashes(mid2));
                assert(bytes@.take(i + 1).drop_last() =~= bytes@.take(i as int));
                let h = hex_number(without_dashes(mid)) as int;
                assert(without_dashes(mid2) == without_dashes(mid).push(hi));
                assert(without_dashes(out@) == without_dashes(mid2).push(lo));
                assert(hex_number(without_dashes(mid2)) == h * 16 + b as int / 16);
                assert(hex_number(without_dashes(out@)) == (h * 16 + b as int / 16) * 16 + b as int
                    % 16);
                assert((h * 16 + b as int / 16) * 16 + b as int % 16 == h * 256 + b) by (
                nonlinear_arith)
                    requires
                        b == (b as int / 16) * 16 + b as int % 16,
                ;
            }
            i += 1;
        }
        proof {
            assert(bytes@.take(16) =~= bytes@);
            assert(unbraced(out@) == out@);
            bytes_of_number(bytes@);
        }
        out
    }

    /// A version 7 UUID: 48 bits of Unix milliseconds, then `random` with the
    /// version and the variant set in it.
    pub fn mint_from(millis: u64, random: [u8; 10]) -> (r: Self)
        ensures
            r.value == big_endian(minted_bytes(millis, random@)),
    {
        let mut bytes: [u8; 16] = [0u8; 16];
        let mut m: u64 = millis;
        let mut i: usize = 6;
        proof {
            lemma_pow0(256);
        }
        while i > 0
            invariant
                i <= 6,
                m == millis as int / pow(256, (6 - i) as nat),
                forall|k: int|
                    i <= k < 6 ==> #[trigger] bytes[k] == (millis as int / pow(
                        256,
                        (5 - k) as nat,
                    )) % 256,
            decreases i,
        {
            proof {
                pow_step((6 - i) as nat);
                lemma_pow0(256);
                vstd::arithmetic::div_mod::lemma_div_denominator(
                    millis as int,
                    pow(256, (6 - i) as nat),
                    256,
                );
            }
            bytes[i - 1] = (m % 256) as u8;
            m = m / 256;
            i -= 1;
        }
        let mut k: usize = 0;
        while k < 10
            invariant
                k <= 10,
                forall|j: int|
                    0 <= j < 6 ==> #[trigger] bytes[j] == (millis as int / pow(
                        256,
                        (5 - j) as nat,
                    )) % 256,
                forall|j: int| 6 <= j < 6 + k ==> #[trigger] bytes[j] == random[j - 6],
            decreases 10 - k,
        {
            bytes[6 + k] = random[k];
            k += 1;
        }
        let version: u8 = bytes[6] % 16 + 0x70;
        let variant: u8 = bytes[8] % 64 + 0x80;
        bytes[6] = version;
        bytes[8] = variant;
        assert(bytes@ =~= minted_bytes(millis, random@));
        Uuid::from_bytes(bytes)
    }
}

/// The bytes of a version 7 UUID.
pub open spec fn minted_bytes(millis: u64, random: Seq<u8>) -> Seq<u8> {
    Seq::new(
        16,
        |i: int|
            if i < 6 {
                ((millis as int / pow(256, (5 - i) as nat)) % 256) as u8
            } else if i == 6 {
                (random[0] % 16 + 0x70) as u8
            } else if i == 8 {
                (random[2] % 64 + 0x80) as u8
            } else {
                random[i - 6]
            },
    )
}

/// The vault that a session is in when it has named none.
pub fn default_vault() -> (r: Uuid)
    ensures
        r.value == 0,
{
    Uuid { value: 0 }
}

proof fn digit_has_its_value(v: int)
    requires
        0 <= v < 16,
    ensures
        hex_value(digit_of(v)) == Some(v),
{
}

/// Hexadecimal digits spell the number that the bytes do, two for each byte.
pub proof fn hex_spells_the_bytes(bytes: Seq<u8>)
    ensures
        hex_of(bytes).len() == 2 * bytes.len(),
        hex_number(hex_of(bytes)) == big_endian(bytes),
    decreases bytes.len(),
{
    if bytes.len() > 0 {
        let front = bytes.drop_last();
        let b = bytes.last() as int;
        hex_spells_the_bytes(front);
        let h = digit_of(b / 16);
        let l = digit_of(b % 16);
        digit_has_its_value(b / 16);
        digit_has_its_value(b % 16);
        let s = hex_of(bytes);
        let t = hex_of(front).push(h);
        assert(s == t.push(l));
        assert(s.drop_last() =~= t);
        assert(t.drop_last() =~= hex_of(front));
        let x = hex_number(hex_of(front)) as int;
        assert(hex_number(t) == x * 16 + b / 16);
        assert((x * 16 + b / 16) * 16 + b % 16 == x * 256 + b) by (nonlinear_arith)
            requires
                0 <= b,
        ;
    }
}

/// A minted id says that it is of the version that is ordered by time, and of the usual
/// variant; its other bits are those of the time and of what was drawn.
pub proof fn a_minted_id_names_its_version(millis: u64, random: Seq<u8>)
    requires
        random.len() == 10,
    ensures
        minted_bytes(millis, random).len() == 16,
        minted_bytes(millis, random)[6] as int / 16 == 7,
        minted_bytes(millis, random)[8] as int / 64 == 2,
        minted_bytes(millis, random)[6] as int % 16 == random[0] as int % 16,
        minted_bytes(millis, random)[8] as int % 64 == random[2] as int % 64,
        minted_bytes(millis, random)[7] == random[1],
        forall|i: int| 9 <= i < 16 ==> #[trigger] minted_bytes(millis, random)[i] == random[i - 6],
{
}

} // verus!
