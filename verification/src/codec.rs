//! Byte-level building blocks shared by the token-store file format and the
//! record serializer: decimal rendering of 64-bit keys, scanning of embedded
//! JSON object texts, and JSON string escaping.
use vstd::prelude::*;

verus! {

pub const QUOTE: u8 = 34;
pub const COMMA: u8 = 44;
pub const COLON: u8 = 58;
pub const LBRACE: u8 = 123;
pub const RBRACE: u8 = 125;
pub const BACKSLASH: u8 = 92;

pub open spec fn is_dec_digit(b: u8) -> bool {
    48 <= b <= 57
}

/// The decimal digits of `n`, most significant first, with no leading zeros
/// (the single digit `0` for zero).
pub open spec fn dec_digits(n: nat) -> Seq<u8>
    decreases n,
{
    if n < 10 {
        seq![(48 + n) as u8]
    } else {
        dec_digits(n / 10).push((48 + n % 10) as u8)
    }
}

pub proof fn lemma_dec_digits_shape(n: nat)
    ensures
        dec_digits(n).len() >= 1,
        forall|i: int| 0 <= i < dec_digits(n).len() ==> is_dec_digit(#[trigger] dec_digits(n)[i]),
        (dec_digits(n)[0] == 48 <==> n == 0),
    decreases n,
{
    if n >= 10 {
        lemma_dec_digits_shape(n / 10);
        assert(dec_digits(n) == dec_digits(n / 10).push((48 + n % 10) as u8));
        assert(dec_digits(n)[0] == dec_digits(n / 10)[0]);
    }
}

/// Appends the decimal rendering of `n` to `out`.
pub fn write_dec(out: &mut Vec<u8>, n: u64)
    ensures
        final(out)@ == old(out)@ + dec_digits(n as nat),
    decreases n,
{
    if n < 10 {
        out.push(48u8 + (n as u8));
        assert(out@ =~= old(out)@ + dec_digits(n as nat));
    } else {
        write_dec(out, n / 10);
        out.push(48u8 + ((n % 10) as u8));
        assert(out@ =~= old(out)@ + dec_digits(n as nat));
    }
}

/// JSON insignificant whitespace.
pub open spec fn is_ws(b: u8) -> bool {
    b == 32 || b == 9 || b == 10 || b == 13
}

/// The index of the first byte at or after `i` that is no whitespace (or the
/// end of the text).
pub open spec fn skip_ws(s: Seq<u8>, i: int) -> int
    decreases s.len() - i,
{
    if 0 <= i < s.len() && is_ws(s[i]) {
        skip_ws(s, i + 1)
    } else {
        i
    }
}

/// The skip never moves backwards and never leaves the text.
pub proof fn lemma_skip_ws_bounds(s: Seq<u8>, i: int)
    requires
        0 <= i <= s.len(),
    ensures
        i <= skip_ws(s, i) <= s.len(),
    decreases s.len() - i,
{
    if i < s.len() && is_ws(s[i]) {
        lemma_skip_ws_bounds(s, i + 1);
    }
}

/// Skips the whitespace starting at `start`.
pub fn skip_ws_exec(s: &Vec<u8>, start: usize) -> (r: usize)
    requires
        start <= s@.len(),
    ensures
        r as int == skip_ws(s@, start as int),
        start <= r && r <= s@.len(),
{
    let mut i: usize = start;
    while i < s.len() && (s[i] == 32 || s[i] == 9 || s[i] == 10 || s[i] == 13)
        invariant
            start <= i <= s@.len(),
            skip_ws(s@, start as int) == skip_ws(s@, i as int),
        decreases s@.len() - i,
    {
        i = i + 1;
    }
    i
}

/// One digit of a serialized key: a decimal digit byte, or the same digit in
/// its six-byte JSON string escape; yields the digit's value and the index
/// just past it.
pub open spec fn key_unit(s: Seq<u8>, i: int) -> Option<(u8, int)> {
    if 0 <= i < s.len() && is_dec_digit(s[i]) {
        Some((((s[i] - 48) as u8), i + 1))
    } else if 0 <= i && i + 6 <= s.len() && s[i] == BACKSLASH && s[i + 1] == 117 && s[i + 2] == 48
        && s[i + 3] == 48 && s[i + 4] == 51 && is_dec_digit(s[i + 5]) {
        Some((((s[i + 5] - 48) as u8), i + 6))
    } else {
        None
    }
}

/// Reads the maximal run of key digits starting at `i`, plain or escaped,
/// folding them onto the accumulator `acc`; yields the accumulated value and
/// the index of the first byte past the run.
pub open spec fn key_scan(s: Seq<u8>, i: int, acc: nat) -> (nat, int)
    decreases s.len() - i,
{
    match key_unit(s, i) {
        Some(u) => key_scan(s, u.1, acc * 10 + u.0 as nat),
        None => (acc, i),
    }
}

/// The value the key scanner accumulates once the digits of `n` have been
/// read on top of a previous accumulator `acc`.
pub open spec fn acc_app(acc: nat, n: nat) -> nat
    decreases n,
{
    if n < 10 {
        acc * 10 + n
    } else {
        acc_app(acc, n / 10) * 10 + n % 10
    }
}

pub proof fn lemma_acc_app_zero(n: nat)
    ensures
        acc_app(0, n) == n,
    decreases n,
{
    if n >= 10 {
        lemma_acc_app_zero(n / 10);
    }
}

/// Scanning a region that holds exactly the plain digits of `n` advances past
/// them and accumulates `n` onto the previous accumulator.
pub proof fn lemma_key_scan_digits(s: Seq<u8>, i: int, acc: nat, n: nat)
    requires
        0 <= i,
        i + dec_digits(n).len() <= s.len(),
        forall|m: int| 0 <= m < dec_digits(n).len() ==> s[i + m] == #[trigger] dec_digits(n)[m],
    ensures
        key_scan(s, i, acc) == key_scan(s, i + dec_digits(n).len(), acc_app(acc, n)),
    decreases n,
{
    lemma_dec_digits_shape(n);
    if n < 10 {
        assert(s[i + 0] == dec_digits(n)[0]);
        assert(is_dec_digit(s[i]));
        assert(key_unit(s, i) == Some((((s[i] - 48) as u8), i + 1)));
        assert((s[i] - 48) as nat == n);
        assert(key_scan(s, i, acc) == key_scan(s, i + 1, acc * 10 + n));
    } else {
        let len = dec_digits(n).len() as int;
        assert forall|m: int| 0 <= m < dec_digits(n / 10).len() implies s[i + m] == #[trigger] dec_digits(
            n / 10,
        )[m] by {
            assert(dec_digits(n)[m] == dec_digits(n / 10)[m]);
            assert(s[i + m] == dec_digits(n)[m]);
        }
        lemma_key_scan_digits(s, i, acc, n / 10);
        assert(s[i + (len - 1)] == dec_digits(n)[len - 1]);
        assert(dec_digits(n)[len - 1] == (48 + n % 10) as u8);
        assert(is_dec_digit(s[i + len - 1]));
        assert(key_unit(s, i + len - 1) == Some((((n % 10) as u8), i + len)));
        assert(key_scan(s, i + len - 1, acc_app(acc, n / 10)) == key_scan(
            s,
            i + len,
            acc_app(acc, n / 10) * 10 + n % 10,
        ));
    }
}

/// The scanned value never falls below the accumulator it started from.
pub proof fn lemma_key_scan_lower_bound(s: Seq<u8>, i: int, acc: nat)
    ensures
        key_scan(s, i, acc).0 >= acc,
    decreases s.len() - i,
{
    match key_unit(s, i) {
        Some(u) => {
            lemma_key_scan_lower_bound(s, u.1, acc * 10 + u.0 as nat);
        },
        None => {},
    }
}

/// The scan never moves backwards and never leaves the text.
pub proof fn lemma_key_scan_bounds(s: Seq<u8>, i: int, acc: nat)
    requires
        0 <= i <= s.len(),
    ensures
        i <= key_scan(s, i, acc).1 <= s.len(),
    decreases s.len() - i,
{
    match key_unit(s, i) {
        Some(u) => {
            lemma_key_scan_bounds(s, u.1, acc * 10 + u.0 as nat);
        },
        None => {},
    }
}

/// Parses the digit run starting at `start`, plain or escaped digits, as a
/// 64-bit value; fails exactly when the run's value does not fit.
pub fn parse_key(s: &Vec<u8>, start: usize) -> (r: Option<(u64, usize)>)
    requires
        start <= s@.len(),
    ensures
        match r {
            Some(p) => key_scan(s@, start as int, 0) == ((p.0 as nat), (p.1 as int)),
            None => key_scan(s@, start as int, 0).0 > u64::MAX,
        },
{
    let mut i: usize = start;
    let mut acc: u64 = 0;
    loop
        invariant
            start <= i <= s@.len(),
            key_scan(s@, start as int, 0) == key_scan(s@, i as int, acc as nat),
        decreases s@.len() - i,
    {
        let d: u64;
        let next: usize;
        if i < s.len() && 48 <= s[i] && s[i] <= 57 {
            d = (s[i] - 48) as u64;
            next = i + 1;
            proof {
                assert(key_unit(s@, i as int) == Some((((s@[i as int] - 48) as u8), i as int + 1)));
            }
        } else if s.len() - i >= 6 && s[i] == BACKSLASH && s[i + 1] == 117 && s[i + 2] == 48
            && s[i + 3] == 48 && s[i + 4] == 51 && 48 <= s[i + 5] && s[i + 5] <= 57 {
            d = (s[i + 5] - 48) as u64;
            next = i + 6;
            proof {
                assert(key_unit(s@, i as int) == Some(
                    (((s@[i as int + 5] - 48) as u8), i as int + 6),
                ));
            }
        } else {
            proof {
                assert(key_unit(s@, i as int) is None);
            }
            return Some((acc, i));
        }
        if acc > (u64::MAX - d) / 10 {
            proof {
                lemma_key_scan_lower_bound(s@, next as int, (acc as nat) * 10 + d as nat);
            }
            return None;
        }
        acc = acc * 10 + d;
        i = next;
    }
}

/// Walks an object text from `i`, tracking brace `depth` and whether the walk
/// stands inside a string (`in_str`) right after an escape byte (`esc`);
/// yields the index just past the closing brace that balances the object, or
/// nothing when the text ends first.
pub open spec fn scan_obj(s: Seq<u8>, i: int, depth: int, in_str: bool, esc: bool) -> Option<int>
    decreases s.len() - i,
{
    if i < 0 || i >= s.len() {
        None
    } else {
        let b = s[i];
        if in_str {
            if esc {
                scan_obj(s, i + 1, depth, true, false)
            } else if b == BACKSLASH {
                scan_obj(s, i + 1, depth, true, true)
            } else if b == QUOTE {
                scan_obj(s, i + 1, depth, false, false)
            } else {
                scan_obj(s, i + 1, depth, true, false)
            }
        } else {
            if b == QUOTE {
                scan_obj(s, i + 1, depth, true, false)
            } else if b == LBRACE {
                scan_obj(s, i + 1, depth + 1, false, false)
            } else if b == RBRACE {
                if depth <= 1 {
                    Some(i + 1)
                } else {
                    scan_obj(s, i + 1, depth - 1, false, false)
                }
            } else {
                scan_obj(s, i + 1, depth, false, false)
            }
        }
    }
}

/// A token value is stored as the text of one JSON object: it opens with a
/// brace, and the brace-balanced walk of its inside ends exactly at its last
/// byte.
pub open spec fn token_wf(v: Seq<u8>) -> bool {
    v.len() >= 2 && v[0] == LBRACE && scan_obj(v, 1, 1, false, false) == Some(v.len() as int)
}

pub proof fn lemma_scan_obj_bounds(s: Seq<u8>, i: int, depth: int, in_str: bool, esc: bool)
    requires
        scan_obj(s, i, depth, in_str, esc) is Some,
    ensures
        i < scan_obj(s, i, depth, in_str, esc)->Some_0 <= s.len(),
    decreases s.len() - i,
{
    if !(i < 0 || i >= s.len()) {
        if scan_obj(s, i + 1, depth, true, false) is Some {
            lemma_scan_obj_bounds(s, i + 1, depth, true, false);
        }
        if scan_obj(s, i + 1, depth, true, true) is Some {
            lemma_scan_obj_bounds(s, i + 1, depth, true, true);
        }
        if scan_obj(s, i + 1, depth, false, false) is Some {
            lemma_scan_obj_bounds(s, i + 1, depth, false, false);
        }
        if scan_obj(s, i + 1, depth + 1, false, false) is Some {
            lemma_scan_obj_bounds(s, i + 1, depth + 1, false, false);
        }
        if scan_obj(s, i + 1, depth - 1, false, false) is Some {
            lemma_scan_obj_bounds(s, i + 1, depth - 1, false, false);
        }
    }
}

/// A walk that succeeds inside `v` takes the same steps when `v` lies
/// embedded at offset `off` of a larger text, since it never reads past the
/// byte where it stops.
pub proof fn lemma_scan_obj_embed(
    v: Seq<u8>,
    s: Seq<u8>,
    off: int,
    i: int,
    depth: int,
    in_str: bool,
    esc: bool,
)
    requires
        0 <= off,
        off + v.len() <= s.len(),
        forall|m: int| 0 <= m < v.len() ==> s[off + m] == v[m],
        0 <= i,
        scan_obj(v, i, depth, in_str, esc) is Some,
    ensures
        scan_obj(s, off + i, depth, in_str, esc) == Some(
            off + scan_obj(v, i, depth, in_str, esc)->Some_0,
        ),
    decreases v.len() - i,
{
    assert(i < v.len());
    assert(s[off + i] == v[i]);
    let b = v[i];
    if in_str {
        if esc {
            lemma_scan_obj_embed(v, s, off, i + 1, depth, true, false);
        } else if b == BACKSLASH {
            lemma_scan_obj_embed(v, s, off, i + 1, depth, true, true);
        } else if b == QUOTE {
            lemma_scan_obj_embed(v, s, off, i + 1, depth, false, false);
        } else {
            lemma_scan_obj_embed(v, s, off, i + 1, depth, true, false);
        }
    } else {
        if b == QUOTE {
            lemma_scan_obj_embed(v, s, off, i + 1, depth, true, false);
        } else if b == LBRACE {
            lemma_scan_obj_embed(v, s, off, i + 1, depth + 1, false, false);
        } else if b == RBRACE {
            if depth <= 1 {
            } else {
                lemma_scan_obj_embed(v, s, off, i + 1, depth - 1, false, false);
            }
        } else {
            lemma_scan_obj_embed(v, s, off, i + 1, depth, false, false);
        }
    }
}

/// Decides `token_wf`: whether the bytes form one object text that the store
/// can embed and recover.
pub fn check_token(v: &Vec<u8>) -> (r: bool)
    ensures
        r == token_wf(v@),
{
    if v.len() < 2 || v[0] != LBRACE {
        return false;
    }
    match scan_object(v, 1) {
        Some(n) => n == v.len(),
        None => false,
    }
}

/// Walks an object text whose opening brace stands just before `start`;
/// yields the index past the balancing close brace.
pub fn scan_object(s: &Vec<u8>, start: usize) -> (r: Option<usize>)
    requires
        1 <= start,
    ensures
        match r {
            Some(n) => scan_obj(s@, start as int, 1, false, false) == Some(n as int),
            None => scan_obj(s@, start as int, 1, false, false) is None,
        },
{
    let mut i: usize = start;
    let mut depth: usize = 1;
    let mut in_str: bool = false;
    let mut esc: bool = false;
    loop
        invariant
            1 <= start <= i,
            1 <= depth <= 1 + i - start,
            scan_obj(s@, start as int, 1, false, false) == scan_obj(
                s@,
                i as int,
                depth as int,
                in_str,
                esc,
            ),
            in_str || !esc,
        decreases s@.len() - i,
    {
        if i >= s.len() {
            return None;
        }
        let b = s[i];
        if in_str {
            if esc {
                esc = false;
            } else if b == BACKSLASH {
                esc = true;
            } else if b == QUOTE {
                in_str = false;
            }
        } else {
            if b == QUOTE {
                in_str = true;
            } else if b == LBRACE {
                assert(depth <= i && i < usize::MAX);
                depth = depth + 1;
            } else if b == RBRACE {
                if depth == 1 {
                    return Some(i + 1);
                }
                depth = depth - 1;
            }
        }
        i = i + 1;
    }
}

} // verus!
