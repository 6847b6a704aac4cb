//! Interpretation of the proxy's settings. Reading the environment is left
//! to the caller, which hands over the raw values (`None` when unset).
use vstd::prelude::*;
use vstd::utf8::encode_utf8;
use crate::text::{chars_equal, chars_of, split_chars, split_on, string_of, trim_by, trim_range};

verus! {

/// The XOR key used when none is configured.
pub open spec fn default_xor_key() -> Seq<char> {
    "s3cr3t_k3y_pr0xy"@
}

/// The key bytes: the UTF-8 bytes of the configured key, or of the default.
pub fn xor_key(raw: Option<&str>) -> (res: Vec<u8>)
    ensures
        res@ == encode_utf8(
            match raw {
                Some(k) => k@,
                None => default_xor_key(),
            },
        ),
{
    match raw {
        Some(k) => k.as_bytes_vec(),
        None => "s3cr3t_k3y_pr0xy".as_bytes_vec(),
    }
}

/// Value of a decimal digit character.
pub open spec fn digit_value(c: char) -> nat {
    (c as u32 - '0' as u32) as nat
}

/// A non-empty run of ASCII digits.
pub open spec fn all_digits(s: Seq<char>) -> bool {
    s.len() > 0 && forall|i: int| 0 <= i < s.len() ==> '0' <= #[trigger] s[i] <= '9'
}

/// The number that a run of ASCII digits denotes.
pub open spec fn decimal(s: Seq<char>) -> nat
    decreases s.len(),
{
    if s.len() == 0 {
        0
    } else {
        decimal(s.drop_last()) * 10 + digit_value(s.last())
    }
}

/// `u16::from_str`: an optional `+`, then digits whose value fits in 16 bits.
pub open spec fn parsed_u16(s: Seq<char>) -> Option<u16> {
    let digits = if s.len() > 0 && s[0] == '+' {
        s.drop_first()
    } else {
        s
    };
    if all_digits(digits) && decimal(digits) <= 65535 {
        Some(decimal(digits) as u16)
    } else {
        None
    }
}

/// The TCP port to listen on: the configured value when it is a valid `u16`,
/// else 8080.
pub fn listen_port(raw: Option<&str>) -> (res: u16)
    ensures
        res == match raw {
            Some(p) => match parsed_u16(p@) {
                Some(v) => v,
                None => 8080,
            },
            None => 8080,
        },
{
    match raw {
        Some(p) => match parse_u16(p) {
            Some(v) => v,
            None => 8080,
        },
        None => 8080,
    }
}

/// `u16::from_str`.
pub fn parse_u16(s: &str) -> (res: Option<u16>)
    ensures
        res == parsed_u16(s@),
{
    let v = chars_of(s);
    let start: usize = if v.len() > 0 && v[0] == '+' {
        1
    } else {
        0
    };
    let ghost digits = if s@.len() > 0 && s@[0] == '+' {
        s@.drop_first()
    } else {
        s@
    };
    assert(digits =~= v@.skip(start as int));
    if start == v.len() {
        return None;
    }
    let mut acc: u32 = 0;
    let mut k = start;
    while k < v.len()
        invariant
            start <= k <= v@.len(),
            v@ == s@,
            digits == v@.skip(start as int),
            digits == (if s@.len() > 0 && s@[0] == '+' {
                s@.drop_first()
            } else {
                s@
            }),
            forall|i: int| start <= i < k ==> '0' <= #[trigger] v@[i] <= '9',
            acc == if decimal(v@.subrange(start as int, k as int)) < 65536 {
                decimal(v@.subrange(start as int, k as int))
            } else {
                65536
            },
        decreases v@.len() - k,
    {
        let c = v[k];
        if c < '0' || c > '9' {
            assert(digits[k - start] == c);
            assert(!all_digits(digits));
            return None;
        }
        let d = (c as u32) - ('0' as u32);
        assert(v@.subrange(start as int, k + 1).drop_last() =~= v@.subrange(
            start as int,
            k as int,
        ));
        if acc >= 65536 {
            acc = 65536;
        } else {
            let next = acc * 10 + d;
            acc = if next < 65536 {
                next
            } else {
                65536
            };
        }
        k = k + 1;
    }
    assert(v@.subrange(start as int, v@.len() as int) =~= digits);
    if acc < 65536 {
        Some(acc as u16)
    } else {
        None
    }
}

/// The allowed origins: the comma-separated entries of the setting, each
/// trimmed of whitespace, empty ones dropped.
pub open spec fn origin_list(raw: Seq<char>) -> Seq<Seq<char>> {
    split_on(raw, ',').map_values(|p: Seq<char>| trim_by(p, false)).filter(
        |p: Seq<char>| p.len() > 0,
    )
}

/// The origin allowed when none is configured.
pub open spec fn default_allowed_origin() -> Seq<char> {
    "http://localhost:8080"@
}

/// The allowed origins from the raw setting (the default when unset).
pub fn allowed_origins(raw: Option<&str>) -> (res: Vec<String>)
    ensures
        res@.map_values(|s: String| s@) == origin_list(
            match raw {
                Some(r) => r@,
                None => default_allowed_origin(),
            },
        ),
{
    let text: &str = match raw {
        Some(r) => r,
        None => "http://localhost:8080",
    };
    let pieces = split_chars(text, ',');
    let ghost pv = pieces@.map_values(|p: Vec<char>| p@);
    let ghost trimmed = pv.map_values(|p: Seq<char>| trim_by(p, false));
    let mut res: Vec<String> = Vec::new();
    let mut i: usize = 0;
    while i < pieces.len()
        invariant
            i <= pieces@.len(),
            pv == pieces@.map_values(|p: Vec<char>| p@),
            trimmed == pv.map_values(|p: Seq<char>| trim_by(p, false)),
            res@.map_values(|s: String| s@) == trimmed.take(i as int).filter(
                |p: Seq<char>| p.len() > 0,
            ),
        decreases pieces@.len() - i,
    {
        let ghost before = res@.map_values(|s: String| s@);
        let m = pieces[i].len();
        let (a, b) = trim_range(&pieces[i], 0, m, false);
        proof {
            assert(pieces@[i as int]@.subrange(0, m as int) =~= pv[i as int]);
            assert(trimmed.take(i + 1).drop_last() =~= trimmed.take(i as int));
            reveal_with_fuel(Seq::filter, 1);
        }
        if a < b {
            let t = string_of(&pieces[i], a, b);
            res.push(t);
            assert(res@.map_values(|s: String| s@) =~= before.push(t@));
        } else {
            assert(res@.map_values(|s: String| s@) =~= before);
        }
        i = i + 1;
    }
    assert(trimmed.take(pieces@.len() as int) =~= trimmed);
    res
}

/// Whether CORS is enforced: the setting is `true` or `1`.
pub fn enable_cors(raw: Option<&str>) -> (res: bool)
    ensures
        res == match raw {
            Some(r) => r@ == "true"@ || r@ == "1"@,
            None => false,
        },
{
    match raw {
        Some(r) => {
            let v = chars_of(r);
            chars_equal(&v, "true") || chars_equal(&v, "1")
        },
        None => false,
    }
}

} // verus!
