//! The picture size that an H.264 sequence parameter set states.
//!
//! The fields of a parameter set are bits, most significant first. A number of variable length is
//! some zeros, a one, and as many bits as there were zeros. A position in the bits is `None` once a
//! field did not fit.

use vstd::prelude::*;
use vstd::arithmetic::power2::{
    lemma2_to64, lemma_pow2_strictly_increases, lemma_pow2_unfold, pow2,
};
use super::nal_type;
use super::unit_type;

verus! {

/// The bytes without those that keep a start code from appearing: a three behind two zeros.
pub open spec fn unescaped(s: Seq<u8>, zeros: nat) -> Seq<u8>
    decreases s.len(),
{
    if s.len() == 0 {
        Seq::empty()
    } else if zeros >= 2 && s[0] == 3 {
        unescaped(s.skip(1), 0)
    } else {
        seq![s[0]] + unescaped(
            s.skip(1),
            if s[0] == 0 {
                zeros + 1
            } else {
                0
            },
        )
    }
}

/// A bit of a byte, counted from the most significant.
pub open spec fn bit_of(b: u8, k: int) -> bool {
    if k == 0 {
        b >= 128
    } else if k == 1 {
        b % 128 >= 64
    } else if k == 2 {
        b % 64 >= 32
    } else if k == 3 {
        b % 32 >= 16
    } else if k == 4 {
        b % 16 >= 8
    } else if k == 5 {
        b % 8 >= 4
    } else if k == 6 {
        b % 4 >= 2
    } else {
        b % 2 >= 1
    }
}

/// The bit at a position.
pub open spec fn bit_at(s: Seq<u8>, at: int) -> bool {
    bit_of(s[at / 8], at % 8)
}

/// The number that `n` bits from a position on stand for.
pub open spec fn bits_value(s: Seq<u8>, at: int, n: nat) -> nat
    decreases n,
{
    if n == 0 {
        0
    } else {
        bits_value(s, at, (n - 1) as nat) * 2 + if bit_at(s, at + n - 1) {
            1nat
        } else {
            0nat
        }
    }
}

/// How many zeros there are from a position to the next one; `None` where there is no one.
pub open spec fn zeros_at(s: Seq<u8>, at: int) -> Option<nat>
    decreases 8 * s.len() - at,
{
    if at < 0 || at >= 8 * s.len() {
        None
    } else if bit_at(s, at) {
        Some(0)
    } else {
        match zeros_at(s, at + 1) {
            Some(n) => Some(n + 1),
            None => None,
        }
    }
}

/// A number of `n` bits, and the position behind it.
pub open spec fn fixed(s: Seq<u8>, at: Option<int>, n: nat) -> Option<(nat, int)> {
    match at {
        Some(at) => if at + n <= 8 * s.len() {
            Some((bits_value(s, at, n), at + n))
        } else {
            None
        },
        None => None,
    }
}

/// A number of variable length, of at most 32 bits, and the position behind it.
pub open spec fn variable(s: Seq<u8>, at: Option<int>) -> Option<(nat, int)> {
    match at {
        Some(at) => match zeros_at(s, at) {
            Some(z) => if z < 32 && at + 2 * z + 1 <= 8 * s.len() {
                Some(((bits_value(s, at + z, z + 1) - 1) as nat, at + 2 * z + 1))
            } else {
                None
            },
            None => None,
        },
        None => None,
    }
}

/// The position behind a field.
pub open spec fn behind(field: Option<(nat, int)>) -> Option<int> {
    match field {
        Some((_, at)) => Some(at),
        None => None,
    }
}

/// Whether a field is there and holds a number.
pub open spec fn holds(field: Option<(nat, int)>, n: nat) -> bool {
    field matches Some((value, _)) && value == n
}

/// The position behind `n` numbers of variable length.
pub open spec fn behind_variables(s: Seq<u8>, at: Option<int>, n: nat) -> Option<int>
    decreases n,
{
    if n == 0 {
        at
    } else {
        behind_variables(s, behind(variable(s, at)), (n - 1) as nat)
    }
}

/// The scale that a difference leads to: odd numbers stand for one half of them, rounded up, above,
/// and even ones for one half of them below, round the circle of 256.
pub open spec fn next_scale(last: int, coded: int) -> int {
    if coded % 2 == 1 {
        (last + (coded + 1) / 2) % 256
    } else {
        (last - coded / 2) % 256
    }
}

/// The position behind a scaling list of which `left` entries are still to come: an entry has a
/// difference in the bits as long as the next scale is not zero.
pub open spec fn behind_list(s: Seq<u8>, at: Option<int>, left: nat, last: int, next: int) -> Option<
    int,
>
    decreases left,
{
    if left == 0 {
        at
    } else if next == 0 {
        behind_list(s, at, (left - 1) as nat, last, 0)
    } else {
        match variable(s, at) {
            None => None,
            Some((coded, p)) => {
                let scale = next_scale(last, coded as int);
                behind_list(
                    s,
                    Some(p),
                    (left - 1) as nat,
                    if scale == 0 {
                        last
                    } else {
                        scale
                    },
                    scale,
                )
            },
        }
    }
}

/// The position behind the scaling lists from the number `i` up to `n`: six small ones, and then
/// large ones. Each has a bit in front that says whether it is there.
pub open spec fn behind_lists(s: Seq<u8>, at: Option<int>, i: nat, n: nat) -> Option<int>
    decreases n - i,
{
    if i >= n {
        at
    } else {
        let there = fixed(s, at, 1);
        let entries: nat = if i < 6 {
            16
        } else {
            64
        };
        let p = if holds(there, 1) {
            behind_list(s, behind(there), entries, 8, 8)
        } else {
            behind(there)
        };
        behind_lists(s, p, i + 1, n)
    }
}

/// Whether a profile has the fields on colour and scaling.
pub open spec fn high_profile(profile: nat) -> bool {
    profile == 100 || profile == 110 || profile == 122 || profile == 244 || profile == 44
        || profile == 83 || profile == 86 || profile == 118 || profile == 128 || profile == 138
        || profile == 139 || profile == 134 || profile == 135
}

/// The position behind the fields on colour and scaling.
pub open spec fn behind_colour(s: Seq<u8>, at: Option<int>) -> Option<int> {
    let chroma = variable(s, at);
    let full = holds(chroma, 3);
    let planes = if full {
        behind(fixed(s, behind(chroma), 1))
    } else {
        behind(chroma)
    };
    let depths = behind_variables(s, planes, 2);
    let matrix = fixed(s, behind(fixed(s, depths, 1)), 1);
    if holds(matrix, 1) {
        behind_lists(
            s,
            behind(matrix),
            0,
            if full {
                12
            } else {
                8
            },
        )
    } else {
        behind(matrix)
    }
}

/// The position behind the fields on the order of pictures.
pub open spec fn behind_order(s: Seq<u8>, at: Option<int>) -> Option<int> {
    let kind = variable(s, at);
    if holds(kind, 0) {
        behind(variable(s, behind(kind)))
    } else if holds(kind, 1) {
        let offsets = behind_variables(s, behind(fixed(s, behind(kind), 1)), 2);
        match variable(s, offsets) {
            Some((n, p)) => behind_variables(s, Some(p), n),
            None => None,
        }
    } else {
        behind(kind)
    }
}

/// The position behind the fields that the profile decides about.
pub open spec fn behind_front(s: Seq<u8>) -> Option<int> {
    let profile = fixed(s, Some(0), 8);
    let id = behind(variable(s, behind(fixed(s, behind(profile), 16))));
    if profile is Some && high_profile(profile->Some_0.0) {
        behind_colour(s, id)
    } else {
        id
    }
}

/// The size that the fields from a position on state, in pixels: a number of blocks of 16 pixels in
/// each direction, where the height counts twice if pictures are made of two fields.
pub open spec fn size_from(s: Seq<u8>, at: Option<int>) -> Option<(nat, nat)> {
    let order = behind_order(s, behind(variable(s, at)));
    let width = variable(s, behind(fixed(s, behind(variable(s, order)), 1)));
    let height = variable(s, behind(width));
    match fixed(s, behind(height), 1) {
        Some((whole_frames, _)) => Some(
            (
                (width->Some_0.0 + 1) * 16,
                if whole_frames == 1 {
                    (height->Some_0.0 + 1) * 16
                } else {
                    (height->Some_0.0 + 1) * 32
                },
            ),
        ),
        None => None,
    }
}

/// The coded picture size that the fields of a parameter set state.
pub open spec fn size_in(s: Seq<u8>) -> Option<(nat, nat)> {
    size_from(s, behind_front(s))
}

/// The coded picture size of a parameter set: `None` where the unit is none, where its fields are cut
/// off, and where the size is beyond any picture.
pub open spec fn size_of(sps: Seq<u8>) -> Option<(nat, nat)> {
    if unit_type(sps) != Some(nal_type::SPS) {
        None
    } else {
        match size_in(unescaped(sps.skip(1), 0)) {
            Some((width, height)) => if width <= u32::MAX && height <= u32::MAX {
                Some((width, height))
            } else {
                None
            },
            None => None,
        }
    }
}

/// A position, as the specifications have it.
pub open spec fn pos(at: Option<u128>) -> Option<int> {
    match at {
        Some(at) => Some(at as int),
        None => None,
    }
}

/// A field, as the specifications have it.
pub open spec fn field(f: Option<(u64, u128)>) -> Option<(nat, int)> {
    match f {
        Some((value, at)) => Some((value as nat, at as int)),
        None => None,
    }
}

fn without_escapes(unit: &[u8]) -> (out: Vec<u8>)
    requires
        unit@.len() > 0,
    ensures
        out@ == unescaped(unit@.skip(1), 0),
{
    let mut out: Vec<u8> = Vec::new();
    let mut zeros: usize = 0;
    let mut i: usize = 1;
    proof {
        assert(out@ + unescaped(unit@.skip(1), 0) =~= unescaped(unit@.skip(1), 0));
    }
    while i < unit.len()
        invariant
            1 <= i <= unit@.len(),
            zeros < i,
            out@ + unescaped(unit@.skip(i as int), zeros as nat) == unescaped(unit@.skip(1), 0),
        decreases unit.len() - i,
    {
        let b: u8 = unit[i];
        let ghost had = out@;
        proof {
            assert(unit@.skip(i as int)[0] == b);
            assert(unit@.skip(i as int).skip(1) =~= unit@.skip(i + 1));
        }
        if zeros >= 2 && b == 3 {
            zeros = 0;
        } else {
            out.push(b);
            if b == 0 {
                zeros = zeros + 1;
            } else {
                zeros = 0;
            }
            proof {
                let rest = unescaped(unit@.skip(i + 1), zeros as nat);
                assert(had + (seq![b] + rest) =~= out@ + rest);
            }
        }
        i = i + 1;
    }
    proof {
        assert(out@ + unescaped(unit@.skip(i as int), zeros as nat) =~= out@);
    }
    out
}

fn bit(s: &Vec<u8>, at: u128) -> (r: bool)
    requires
        at < 8 * s@.len(),
    ensures
        r == bit_at(s@, at as int),
{
    let n: usize = s.len();
    assert(at / 8 < n);
    let b: u8 = s[(at / 8) as usize];
    match (at % 8) as u8 {
        0 => b >= 128,
        1 => b % 128 >= 64,
        2 => b % 64 >= 32,
        3 => b % 32 >= 16,
        4 => b % 16 >= 8,
        5 => b % 8 >= 4,
        6 => b % 4 >= 2,
        _ => b % 2 >= 1,
    }
}

fn value(s: &Vec<u8>, at: u128, n: u32) -> (v: u64)
    requires
        at + n <= 8 * s@.len(),
        n <= 32,
    ensures
        v == bits_value(s@, at as int, n as nat),
        v < pow2(n as nat),
{
    let total: u128 = s.len() as u128 * 8;
    let mut v: u64 = 0;
    let mut k: u32 = 0;
    proof {
        lemma2_to64();
    }
    while k < n
        invariant
            k <= n <= 32,
            at + n <= total,
            total == 8 * s@.len(),
            v == bits_value(s@, at as int, k as nat),
            v < pow2(k as nat),
            v <= 0xffff_ffff,
        decreases n - k,
    {
        proof {
            lemma_pow2_unfold((k + 1) as nat);
        }
        let one: u64 = if bit(s, at + k as u128) {
            1
        } else {
            0
        };
        v = v * 2 + one;
        k = k + 1;
        proof {
            lemma2_to64();
            if k < 32 {
                lemma_pow2_strictly_increases(k as nat, 32);
            }
        }
    }
    v
}

fn read_fixed(s: &Vec<u8>, at: Option<u128>, n: u32) -> (r: Option<(u64, u128)>)
    requires
        n <= 32,
        pos(at) matches Some(p) ==> p <= 8 * s@.len(),
    ensures
        field(r) == fixed(s@, pos(at), n as nat),
        r matches Some((_, p)) ==> p <= 8 * s@.len(),
{
    let total: u128 = s.len() as u128 * 8;
    match at {
        Some(at) => if at + n as u128 <= total {
            Some((value(s, at, n), at + n as u128))
        } else {
            None
        },
        None => None,
    }
}

fn zeros(s: &Vec<u8>, from: u128) -> (r: Option<u128>)
    requires
        from <= 8 * s@.len(),
    ensures
        match r {
            Some(n) => zeros_at(s@, from as int) == Some(n as nat) && from + n < 8 * s@.len()
                && bit_at(s@, from + n),
            None => zeros_at(s@, from as int) is None,
        },
{
    let total: u128 = s.len() as u128 * 8;
    let mut at: u128 = from;
    while at < total
        invariant
            total == 8 * s@.len(),
            from <= at <= total,
            match zeros_at(s@, at as int) {
                Some(n) => zeros_at(s@, from as int) == Some((n + at - from) as nat),
                None => zeros_at(s@, from as int) is None,
            },
        decreases total - at,
    {
        if bit(s, at) {
            return Some(at - from);
        }
        at = at + 1;
    }
    None
}

fn read_variable(s: &Vec<u8>, at: Option<u128>) -> (r: Option<(u64, u128)>)
    requires
        pos(at) matches Some(p) ==> p <= 8 * s@.len(),
    ensures
        field(r) == variable(s@, pos(at)),
        r matches Some((v, p)) ==> p <= 8 * s@.len() && v <= 0xffff_ffff,
{
    let at: u128 = match at {
        Some(at) => at,
        None => {
            return None;
        },
    };
    let total: u128 = s.len() as u128 * 8;
    match zeros(s, at) {
        Some(z) => if z < 32 && at + 2 * z + 1 <= total {
            let v: u64 = value(s, at + z, (z + 1) as u32);
            proof {
                lemma2_to64();
                if z + 1 < 32 {
                    lemma_pow2_strictly_increases((z + 1) as nat, 32);
                }
                lemma_leading_one(s@, at + z, (z + 1) as nat);
            }
            Some((v - 1, at + 2 * z + 1))
        } else {
            None
        },
        None => None,
    }
}

/// A number that begins with a one is not zero.
proof fn lemma_leading_one(s: Seq<u8>, at: int, n: nat)
    requires
        n > 0,
        bit_at(s, at),
    ensures
        bits_value(s, at, n) > 0,
    decreases n,
{
    if n > 1 {
        lemma_leading_one(s, at, (n - 1) as nat);
    } else {
        assert(bits_value(s, at, 0) == 0);
    }
}

fn after(f: Option<(u64, u128)>) -> (r: Option<u128>)
    ensures
        pos(r) == behind(field(f)),
        f is None ==> r is None,
        f matches Some((_, p)) ==> r == Some(p),
{
    match f {
        Some((_, at)) => Some(at),
        None => None,
    }
}

fn is_number(f: Option<(u64, u128)>, n: u64) -> (r: bool)
    ensures
        r == holds(field(f), n as nat),
{
    match f {
        Some((value, _)) => value == n,
        None => false,
    }
}

fn skip_variables(s: &Vec<u8>, at: Option<u128>, n: u64) -> (r: Option<u128>)
    requires
        pos(at) matches Some(p) ==> p <= 8 * s@.len(),
    ensures
        pos(r) == behind_variables(s@, pos(at), n as nat),
        pos(r) matches Some(p) ==> p <= 8 * s@.len(),
{
    let mut here: Option<u128> = at;
    let mut left: u64 = n;
    while left > 0
        invariant
            left <= n,
            pos(here) matches Some(p) ==> p <= 8 * s@.len(),
            behind_variables(s@, pos(at), n as nat) == behind_variables(
                s@,
                pos(here),
                left as nat,
            ),
        decreases left,
    {
        here = after(read_variable(s, here));
        left = left - 1;
    }
    here
}

fn scale_after(last: u64, coded: u64) -> (r: u64)
    requires
        last < 256,
        coded <= 0xffff_ffff,
    ensures
        r == next_scale(last as int, coded as int),
        r < 256,
{
    if coded % 2 == 1 {
        (last + (coded + 1) / 2) % 256
    } else {
        let down: u64 = (coded / 2) % 256;
        proof {
            let h = coded as int / 2;
            assert((last - h) % 256 == (last + 256 - h % 256) % 256) by {
                let q = h / 256;
                assert(h == q * 256 + h % 256);
                assert(last - h == (last + 256 - h % 256) - (q + 1) * 256) by (nonlinear_arith)
                    requires
                        h == q * 256 + h % 256,
                ;
                vstd::arithmetic::div_mod::lemma_mod_multiples_vanish(
                    -(q + 1),
                    last + 256 - h % 256,
                    256,
                );
                assert(256 * -(q + 1) + (last + 256 - h % 256) == last - h);
            }
        }
        (last + 256 - down) % 256
    }
}

fn skip_list(s: &Vec<u8>, at: Option<u128>, entries: u32) -> (r: Option<u128>)
    requires
        pos(at) matches Some(p) ==> p <= 8 * s@.len(),
    ensures
        pos(r) == behind_list(s@, pos(at), entries as nat, 8, 8),
        pos(r) matches Some(p) ==> p <= 8 * s@.len(),
{
    let mut here: Option<u128> = at;
    let mut left: u32 = entries;
    let mut last: u64 = 8;
    let mut next: u64 = 8;
    while left > 0
        invariant
            left <= entries,
            last < 256,
            next < 256,
            pos(here) matches Some(p) ==> p <= 8 * s@.len(),
            behind_list(s@, pos(at), entries as nat, 8, 8) == behind_list(
                s@,
                pos(here),
                left as nat,
                last as int,
                next as int,
            ),
        decreases left,
    {
        if next != 0 {
            match read_variable(s, here) {
                Some((coded, p)) => {
                    next = scale_after(last, coded);
                    if next != 0 {
                        last = next;
                    }
                    here = Some(p);
                },
                None => {
                    return None;
                },
            }
        }
        left = left - 1;
    }
    here
}

fn skip_lists(s: &Vec<u8>, at: Option<u128>, n: u32) -> (r: Option<u128>)
    requires
        pos(at) matches Some(p) ==> p <= 8 * s@.len(),
    ensures
        pos(r) == behind_lists(s@, pos(at), 0, n as nat),
        pos(r) matches Some(p) ==> p <= 8 * s@.len(),
{
    let mut here: Option<u128> = at;
    let mut i: u32 = 0;
    while i < n
        invariant
            i <= n,
            pos(here) matches Some(p) ==> p <= 8 * s@.len(),
            behind_lists(s@, pos(at), 0, n as nat) == behind_lists(
                s@,
                pos(here),
                i as nat,
                n as nat,
            ),
        decreases n - i,
    {
        let there = read_fixed(s, here, 1);
        let entries: u32 = if i < 6 {
            16
        } else {
            64
        };
        here = if is_number(there, 1) {
            skip_list(s, after(there), entries)
        } else {
            after(there)
        };
        i = i + 1;
    }
    here
}

fn is_high_profile(profile: u64) -> (r: bool)
    ensures
        r == high_profile(profile as nat),
{
    match profile {
        100 | 110 | 122 | 244 | 44 | 83 | 86 | 118 | 128 | 138 | 139 | 134 | 135 => true,
        _ => false,
    }
}

fn skip_colour(s: &Vec<u8>, at: Option<u128>) -> (r: Option<u128>)
    requires
        pos(at) matches Some(p) ==> p <= 8 * s@.len(),
    ensures
        pos(r) == behind_colour(s@, pos(at)),
        pos(r) matches Some(p) ==> p <= 8 * s@.len(),
{
    let chroma = read_variable(s, at);
    let full: bool = is_number(chroma, 3);
    let planes: Option<u128> = if full {
        after(read_fixed(s, after(chroma), 1))
    } else {
        after(chroma)
    };
    let depths: Option<u128> = skip_variables(s, planes, 2);
    let matrix = read_fixed(s, after(read_fixed(s, depths, 1)), 1);
    if is_number(matrix, 1) {
        let lists: u32 = if full {
            12
        } else {
            8
        };
        skip_lists(s, after(matrix), lists)
    } else {
        after(matrix)
    }
}

fn skip_order(s: &Vec<u8>, at: Option<u128>) -> (r: Option<u128>)
    requires
        pos(at) matches Some(p) ==> p <= 8 * s@.len(),
    ensures
        pos(r) == behind_order(s@, pos(at)),
        pos(r) matches Some(p) ==> p <= 8 * s@.len(),
{
    let kind = read_variable(s, at);
    if is_number(kind, 0) {
        after(read_variable(s, after(kind)))
    } else if is_number(kind, 1) {
        let offsets: Option<u128> = skip_variables(s, after(read_fixed(s, after(kind), 1)), 2);
        match read_variable(s, offsets) {
            Some((n, p)) => skip_variables(s, Some(p), n),
            None => None,
        }
    } else {
        after(kind)
    }
}

/// The coded picture size that a sequence parameter set (without its start code) states, in pixels;
/// `None` if it is no parameter set, is cut off, or states a size beyond any picture.
pub fn sps_dimensions(sps: &[u8]) -> (r: Option<(u32, u32)>)
    ensures
        match r {
            Some((width, height)) => size_of(sps@) == Some((width as nat, height as nat)),
            None => size_of(sps@) is None,
        },
{
    match super::nal_unit_type(sps) {
        Some(t) => {
            if t != nal_type::SPS {
                return None;
            }
        },
        None => {
            return None;
        },
    }
    let s: Vec<u8> = without_escapes(sps);
    let profile = read_fixed(&s, Some(0), 8);
    let id: Option<u128> = after(read_variable(&s, after(read_fixed(&s, after(profile), 16))));
    let high: bool = match profile {
        Some((profile, _)) => is_high_profile(profile),
        None => false,
    };
    let colour: Option<u128> = if high {
        skip_colour(&s, id)
    } else {
        id
    };
    let order: Option<u128> = skip_order(&s, after(read_variable(&s, colour)));
    let width = read_variable(&s, after(read_fixed(&s, after(read_variable(&s, order)), 1)));
    let height = read_variable(&s, after(width));
    let whole_frames = read_fixed(&s, after(height), 1);
    match (width, height, whole_frames) {
        (Some((w, _)), Some((h, _)), Some((whole, _))) => {
            let wide: u64 = (w + 1) * 16;
            let high: u64 = if whole == 1 {
                (h + 1) * 16
            } else {
                (h + 1) * 32
            };
            if wide <= u32::MAX as u64 && high <= u32::MAX as u64 {
                Some((wide as u32, high as u32))
            } else {
                None
            }
        },
        _ => None,
    }
}

/// What a bit is worth in its byte, counted from the most significant.
pub open spec fn bit_weight(k: int) -> int {
    if k == 0 {
        128
    } else if k == 1 {
        64
    } else if k == 2 {
        32
    } else if k == 3 {
        16
    } else if k == 4 {
        8
    } else if k == 5 {
        4
    } else if k == 6 {
        2
    } else {
        1
    }
}

/// Whether some bits stand in `s` from a position on.
#[verifier::opaque]
pub open spec fn written(s: Seq<u8>, at: int, bits: Seq<bool>) -> bool {
    &&& 0 <= at
    &&& at + bits.len() <= 8 * s.len()
    &&& forall|i: int|
        #![trigger bits[i]]
        0 <= i < bits.len() ==> bits[i] == ((s[(at + i) / 8] as int / bit_weight((at + i) % 8)) % 2
            == 1)
}

/// A number as `width` binary digits, the highest one first.
pub open spec fn binary(n: nat, width: nat) -> Seq<bool> {
    Seq::new(width, |i: int| (n as int / pow2((width - 1 - i) as nat) as int) % 2 == 1)
}

/// How many binary digits a number has behind its first one.
pub open spec fn digits_behind(n: nat) -> nat
    decreases n,
{
    if n < 2 {
        0
    } else {
        1 + digits_behind(n / 2)
    }
}

/// A number of variable length: as many zeros as the number above it has digits behind its first
/// one, and then those digits, the first one included.
#[verifier::opaque]
pub open spec fn coded(n: nat) -> Seq<bool> {
    let z = digits_behind(n + 1);
    Seq::new(z, |i: int| false) + binary(n + 1, z + 1)
}

/// Several numbers of variable length.
pub open spec fn coded_all(numbers: Seq<nat>) -> Seq<bool>
    decreases numbers.len(),
{
    if numbers.len() == 0 {
        Seq::empty()
    } else {
        coded(numbers[0]) + coded_all(numbers.skip(1))
    }
}

proof fn lemma_bit(b: u8, k: int)
    requires
        0 <= k < 8,
    ensures
        bit_of(b, k) == ((b as int / bit_weight(k)) % 2 == 1),
{
}

proof fn lemma_written_bit(s: Seq<u8>, at: int, bits: Seq<bool>, i: int)
    requires
        written(s, at, bits),
        0 <= i < bits.len(),
    ensures
        bit_at(s, at + i) == bits[i],
{
    reveal(written);
    assert(bits[i] == ((s[(at + i) / 8] as int / bit_weight((at + i) % 8)) % 2 == 1));
    lemma_bit(s[(at + i) / 8], (at + i) % 8);
}

proof fn lemma_written_split(s: Seq<u8>, at: int, a: Seq<bool>, b: Seq<bool>)
    requires
        written(s, at, a + b),
    ensures
        written(s, at, a),
        written(s, at + a.len(), b),
        0 <= at,
        at + a.len() + b.len() <= 8 * s.len(),
{
    reveal(written);
    assert forall|i: int| 0 <= i < a.len() implies #[trigger] a[i] == ((s[(at + i) / 8] as int
        / bit_weight((at + i) % 8)) % 2 == 1) by {
        assert((a + b)[i] == a[i]);
    }
    assert forall|i: int| 0 <= i < b.len() implies #[trigger] b[i] == ((s[(at + a.len() + i)
        / 8] as int / bit_weight((at + a.len() + i) % 8)) % 2 == 1) by {
        assert((a + b)[a.len() + i] == b[i]);
        assert(at + (a.len() + i) == at + a.len() + i);
    }
}

/// Digits that were written are read as their number.
proof fn lemma_binary_is_read(s: Seq<u8>, at: int, n: nat, width: nat)
    requires
        written(s, at, binary(n, width)),
        n < pow2(width),
    ensures
        bits_value(s, at, width) == n,
    decreases width,
{
    let bits = binary(n, width);
    if width == 0 {
        lemma2_to64();
    } else {
        let less = (width - 1) as nat;
        let half = (n / 2) as nat;
        lemma_pow2_unfold(width);
        let front = binary(half, less);
        assert forall|i: int| 0 <= i < less implies front[i] == #[trigger] bits[i] by {
            let e = (less - 1 - i) as nat;
            lemma_pow2_unfold((e + 1) as nat);
            vstd::arithmetic::power2::lemma_pow2_pos(e);
            vstd::arithmetic::div_mod::lemma_div_denominator(n as int, 2, pow2(e) as int);
            assert((width - 1 - i) as nat == e + 1);
        }
        assert(bits =~= front + seq![bits[width - 1]]);
        lemma_written_split(s, at, front, seq![bits[width - 1]]);
        lemma_binary_is_read(s, at, half, less);
        lemma_written_bit(s, at, bits, width - 1);
        lemma2_to64();
        assert(pow2(0) == 1);
        assert(bits[width - 1] == ((n as int / 1) % 2 == 1));
    }
}

/// A number lies between two powers: that of the digits behind its first one, and the next.
proof fn lemma_digits_behind(n: nat)
    requires
        n > 0,
    ensures
        pow2(digits_behind(n)) <= n < pow2(digits_behind(n) + 1),
    decreases n,
{
    lemma2_to64();
    let z = digits_behind(n);
    lemma_pow2_unfold(z + 1);
    if n >= 2 {
        lemma_digits_behind(n / 2);
        lemma_pow2_unfold(z);
    }
}

proof fn lemma_zeros(s: Seq<u8>, at: int, z: nat)
    requires
        0 <= at,
        at + z < 8 * s.len(),
        forall|i: int| at <= i < at + z ==> !#[trigger] bit_at(s, i),
        bit_at(s, at + z),
    ensures
        zeros_at(s, at) == Some(z),
    decreases z,
{
    if z > 0 {
        assert(!bit_at(s, at));
        lemma_zeros(s, at + 1, (z - 1) as nat);
    }
}

/// A number of variable length that was written is read back, and the position behind it is the one
/// behind its bits.
pub proof fn law_variable_length_is_read_back(s: Seq<u8>, at: int, n: nat)
    requires
        written(s, at, coded(n)),
        n + 1 < 0x1_0000_0000,
    ensures
        variable(s, Some(at)) == Some((n, at + coded(n).len())),
{
    reveal(coded);
    let z = digits_behind(n + 1);
    let none = Seq::new(z, |i: int| false);
    let digits = binary(n + 1, z + 1);
    lemma_digits_behind(n + 1);
    lemma2_to64();
    if z >= 32 {
        if z > 32 {
            lemma_pow2_strictly_increases(32, z);
        }
        assert(false);
    }
    lemma_written_split(s, at, none, digits);
    assert forall|i: int| at <= i < at + z implies !#[trigger] bit_at(s, i) by {
        lemma_written_bit(s, at, none, i - at);
        assert(at + (i - at) == i);
    }
    lemma_written_bit(s, at + z, digits, 0);
    lemma_pow2_unfold(z + 1);
    assert((n + 1) as int / pow2(z) as int == 1) by (nonlinear_arith)
        requires
            pow2(z) <= n + 1,
            n + 1 < 2 * pow2(z),
    ;
    assert(digits[0]);
    lemma_zeros(s, at, z);
    lemma_binary_is_read(s, at + z, n + 1, z + 1);
}

/// A number of fixed length that was written is read back.
pub proof fn law_fixed_length_is_read_back(s: Seq<u8>, at: int, n: nat, width: nat)
    requires
        written(s, at, binary(n, width)),
        n < pow2(width),
    ensures
        fixed(s, Some(at), width) == Some((n, at + width)),
{
    reveal(written);
    lemma_binary_is_read(s, at, n, width);
}

proof fn lemma_variables(s: Seq<u8>, at: int, numbers: Seq<nat>)
    requires
        written(s, at, coded_all(numbers)),
        forall|i: int| 0 <= i < numbers.len() ==> #[trigger] numbers[i] + 1 < 0x1_0000_0000,
    ensures
        behind_variables(s, Some(at), numbers.len()) == Some(
            at + coded_all(numbers).len() as int,
        ),
    decreases numbers.len(),
{
    if numbers.len() > 0 {
        let rest = numbers.skip(1);
        lemma_written_split(s, at, coded(numbers[0]), coded_all(rest));
        law_variable_length_is_read_back(s, at, numbers[0]);
        assert forall|i: int| 0 <= i < rest.len() implies #[trigger] rest[i] + 1
            < 0x1_0000_0000 by {
            assert(rest[i] == numbers[i + 1]);
        }
        lemma_variables(s, at + coded(numbers[0]).len(), rest);
    }
}

proof fn lemma_one_bit(s: Seq<u8>, at: int, b: bool)
    requires
        written(s, at, seq![b]),
    ensures
        fixed(s, Some(at), 1) == Some(
            (
                if b {
                    1nat
                } else {
                    0nat
                },
                at + 1,
            ),
        ),
{
    reveal(written);
    lemma_written_bit(s, at, seq![b], 0);
    reveal_with_fuel(bits_value, 2);
}

/// How the pictures of a stream are ordered, as a parameter set states it.
pub enum PictureOrder {
    /// By a counter of so many bits, less four.
    Counted(nat),
    /// By a cycle of offsets, behind a flag and two offsets.
    Cycle { flag: bool, offsets: (nat, nat), cycle: Seq<nat> },
    /// As they come.
    AsDecoded,
}

/// What a parameter set states: the profile, what depends on the profile, the order of pictures, and
/// the size in blocks.
pub struct StatedSize {
    pub profile: nat,
    pub level: nat,
    pub id: nat,
    /// The colour format, the two depths, and the two flags of a high profile.
    pub colour: (nat, bool, nat, nat, bool),
    /// The scaling lists of a high profile, each by its coded differences, `None` standing for a list
    /// that is not stated.
    pub lists: Option<Seq<Option<Seq<nat>>>>,
    pub frame_numbers: nat,
    pub order: PictureOrder,
    pub references: nat,
    pub gaps: bool,
    pub blocks_across: nat,
    pub blocks_down: nat,
    pub whole_frames: bool,
}

/// The profiles that state a colour format.
pub open spec fn states_colour(profile: nat) -> bool {
    seq![100nat, 110, 122, 244, 44, 83, 86, 118, 128, 138, 139, 134, 135].contains(profile)
}

/// The difference that a number of variable length stands for: one up, one down, two up, two down,
/// and so on.
pub open spec fn difference(coded: nat) -> int {
    if coded % 2 == 1 {
        (coded + 1) as int / 2
    } else {
        -(coded as int / 2)
    }
}

/// Whether some coded differences are a scaling list of `left` entries behind the scale `last`: one
/// for each entry, or fewer if the last one leads to the scale zero.
pub open spec fn is_list(coded: Seq<nat>, left: nat, last: int) -> bool
    decreases left,
{
    if left == 0 {
        coded.len() == 0
    } else {
        &&& coded.len() > 0
        &&& coded[0] < 0xffff_ffff
        &&& {
            let scale = (last + difference(coded[0])) % 256;
            if scale == 0 {
                coded.len() == 1
            } else {
                is_list(coded.skip(1), (left - 1) as nat, scale)
            }
        }
    }
}

/// The bits of some scaling lists: for each a bit that says whether it is stated, and its
/// differences if it is.
pub open spec fn lists_bits(lists: Seq<Option<Seq<nat>>>) -> Seq<bool>
    decreases lists.len(),
{
    if lists.len() == 0 {
        Seq::empty()
    } else {
        (match lists[0] {
            Some(numbers) => seq![true] + coded_all(numbers),
            None => seq![false],
        }) + lists_bits(lists.skip(1))
    }
}

/// Whether some lists are the scaling lists from the number `i` on: six small ones and then large
/// ones, each beginning with the scale eight.
pub open spec fn are_lists(lists: Seq<Option<Seq<nat>>>, i: nat) -> bool
    decreases lists.len(),
{
    lists.len() == 0 || {
        &&& lists[0] matches Some(coded) ==> is_list(
            coded,
            if i < 6 {
                16
            } else {
                64
            },
            8,
        )
        &&& are_lists(lists.skip(1), i + 1)
    }
}

/// The bits of a colour format.
pub open spec fn colour_bits(
    c: (nat, bool, nat, nat, bool),
    lists: Option<Seq<Option<Seq<nat>>>>,
) -> Seq<bool> {
    coded(c.0) + (if c.0 == 3 {
        seq![c.1]
    } else {
        Seq::empty()
    } + (coded_all(seq![c.2, c.3]) + (seq![c.4] + match lists {
        Some(lists) => seq![true] + lists_bits(lists),
        None => seq![false] + Seq::empty(),
    })))
}

/// A list has no more entries once the next scale is zero.
proof fn lemma_list_ended(s: Seq<u8>, at: int, left: nat, last: int)
    ensures
        behind_list(s, Some(at), left, last, 0) == Some(at),
    decreases left,
{
    if left > 0 {
        lemma_list_ended(s, at, (left - 1) as nat, last);
    }
}

proof fn lemma_list_is_read(s: Seq<u8>, at: int, numbers: Seq<nat>, left: nat, last: int, next: int)
    requires
        written(s, at, coded_all(numbers)),
        is_list(numbers, left, last),
        next != 0,
    ensures
        behind_list(s, Some(at), left, last, next) == Some(at + coded_all(numbers).len() as int),
    decreases left,
{
    if left > 0 {
        let n = numbers[0];
        let rest = numbers.skip(1);
        lemma_written_split(s, at, coded(n), coded_all(rest));
        law_variable_length_is_read_back(s, at, n);
        let p: int = at + coded(n).len();
        let scale = (last + difference(n)) % 256;
        assert(next_scale(last, n as int) == scale);
        if scale == 0 {
            lemma_list_ended(s, p, (left - 1) as nat, last);
            assert(coded_all(rest).len() == 0);
        } else {
            lemma_list_is_read(s, p, rest, (left - 1) as nat, scale, scale);
        }
    }
}

proof fn lemma_lists_are_read(s: Seq<u8>, at: int, lists: Seq<Option<Seq<nat>>>, i: nat)
    requires
        written(s, at, lists_bits(lists)),
        are_lists(lists, i),
    ensures
        behind_lists(s, Some(at), i, i + lists.len()) == Some(at + lists_bits(lists).len() as int),
    decreases lists.len(),
{
    if lists.len() > 0 {
        let rest = lists.skip(1);
        let first = match lists[0] {
            Some(numbers) => seq![true] + coded_all(numbers),
            None => seq![false],
        };
        lemma_written_split(s, at, first, lists_bits(rest));
        let p: int = at + first.len();
        match lists[0] {
            Some(numbers) => {
                lemma_written_split(s, at, seq![true], coded_all(numbers));
                lemma_one_bit(s, at, true);
                let entries: nat = if i < 6 {
                    16
                } else {
                    64
                };
                lemma_list_is_read(s, at + 1, numbers, entries, 8, 8);
            },
            None => {
                lemma_one_bit(s, at, false);
            },
        }
        lemma_lists_are_read(s, p, rest, i + 1);
    }
}

/// The bits of an order of pictures.
pub open spec fn order_bits(order: PictureOrder) -> Seq<bool> {
    match order {
        PictureOrder::Counted(bits) => coded(0) + coded(bits),
        PictureOrder::Cycle { flag, offsets, cycle } => coded(1) + (seq![flag] + (coded_all(
            seq![offsets.0, offsets.1],
        ) + (coded(cycle.len()) + coded_all(cycle)))),
        PictureOrder::AsDecoded => coded(2),
    }
}

/// The bits of the fields behind those of the profile.
pub open spec fn size_bits(p: StatedSize) -> Seq<bool> {
    coded(p.frame_numbers) + (order_bits(p.order) + (coded(p.references) + (seq![p.gaps] + (coded(
        (p.blocks_across - 1) as nat,
    ) + (coded((p.blocks_down - 1) as nat) + seq![p.whole_frames])))))
}

/// The bits of a parameter set behind its type.
pub open spec fn stated_bits(p: StatedSize) -> Seq<bool> {
    binary(p.profile, 8) + (binary(p.level, 16) + (coded(p.id) + (if states_colour(p.profile) {
        colour_bits(p.colour, p.lists)
    } else {
        Seq::empty()
    } + size_bits(p))))
}

/// Whether every number of a parameter set has a place in it.
pub open spec fn stated_fits(p: StatedSize) -> bool {
    let limit: int = 0xffff_ffff;
    &&& p.profile < 256
    &&& p.level < 65536
    &&& p.id < limit && p.frame_numbers < limit && p.references < limit
    &&& p.colour.0 < limit && p.colour.2 < limit && p.colour.3 < limit
    &&& p.lists matches Some(lists) ==> are_lists(lists, 0) && lists.len() == if p.colour.0 == 3 {
        12int
    } else {
        8int
    }
    &&& 0 < p.blocks_across < limit && 0 < p.blocks_down < limit
    &&& match p.order {
        PictureOrder::Counted(bits) => bits < limit,
        PictureOrder::Cycle { offsets, cycle, .. } => {
            &&& offsets.0 < limit && offsets.1 < limit && cycle.len() < limit
            &&& forall|i: int| 0 <= i < cycle.len() ==> #[trigger] cycle[i] < limit
        },
        PictureOrder::AsDecoded => true,
    }
}

#[verifier::spinoff_prover]
proof fn lemma_colour(
    s: Seq<u8>,
    at: int,
    c: (nat, bool, nat, nat, bool),
    lists: Option<Seq<Option<Seq<nat>>>>,
)
    requires
        written(s, at, colour_bits(c, lists)),
        c.0 < 0xffff_ffff && c.2 < 0xffff_ffff && c.3 < 0xffff_ffff,
        lists matches Some(lists) ==> are_lists(lists, 0) && lists.len() == if c.0 == 3 {
            12int
        } else {
            8int
        },
    ensures
        behind_colour(s, Some(at)) == Some(at + colour_bits(c, lists).len() as int),
{
    let plane = if c.0 == 3 {
        seq![c.1]
    } else {
        Seq::empty()
    };
    let depths = coded_all(seq![c.2, c.3]);
    let matrix = match lists {
        Some(lists) => seq![true] + lists_bits(lists),
        None => seq![false] + Seq::empty(),
    };
    let flags = seq![c.4] + matrix;
    lemma_written_split(s, at, coded(c.0), plane + (depths + flags));
    law_variable_length_is_read_back(s, at, c.0);
    let a = at + coded(c.0).len();
    lemma_written_split(s, a, plane, depths + flags);
    if c.0 == 3 {
        lemma_one_bit(s, a, c.1);
    }
    let b = a + plane.len();
    lemma_written_split(s, b, depths, flags);
    lemma_variables(s, b, seq![c.2, c.3]);
    let d = b + depths.len();
    lemma_written_split(s, d, seq![c.4], matrix);
    lemma_one_bit(s, d, c.4);
    match lists {
        Some(lists) => {
            lemma_written_split(s, d + 1, seq![true], lists_bits(lists));
            lemma_one_bit(s, d + 1, true);
            lemma_lists_are_read(s, d + 2, lists, 0);
        },
        None => {
            lemma_written_split(s, d + 1, seq![false], Seq::empty());
            lemma_one_bit(s, d + 1, false);
        },
    }
}

proof fn lemma_order(s: Seq<u8>, at: int, order: PictureOrder)
    requires
        written(s, at, order_bits(order)),
        match order {
            PictureOrder::Counted(bits) => bits < 0xffff_ffff,
            PictureOrder::Cycle { offsets, cycle, .. } => {
                &&& offsets.0 < 0xffff_ffff && offsets.1 < 0xffff_ffff && cycle.len() < 0xffff_ffff
                &&& forall|i: int| 0 <= i < cycle.len() ==> #[trigger] cycle[i] < 0xffff_ffff
            },
            PictureOrder::AsDecoded => true,
        },
    ensures
        behind_order(s, Some(at)) == Some(at + order_bits(order).len() as int),
{
    match order {
        PictureOrder::Counted(bits) => {
            lemma_written_split(s, at, coded(0), coded(bits));
            law_variable_length_is_read_back(s, at, 0);
            law_variable_length_is_read_back(s, at + coded(0).len(), bits);
        },
        PictureOrder::Cycle { flag, offsets, cycle } => {
            let two = coded_all(seq![offsets.0, offsets.1]);
            let many = coded(cycle.len()) + coded_all(cycle);
            lemma_written_split(s, at, coded(1), seq![flag] + (two + many));
            law_variable_length_is_read_back(s, at, 1);
            let a = at + coded(1).len();
            lemma_written_split(s, a, seq![flag], two + many);
            lemma_one_bit(s, a, flag);
            lemma_written_split(s, a + 1, two, many);
            lemma_variables(s, a + 1, seq![offsets.0, offsets.1]);
            let b = a + 1 + two.len();
            lemma_written_split(s, b, coded(cycle.len()), coded_all(cycle));
            law_variable_length_is_read_back(s, b, cycle.len());
            lemma_variables(s, b + coded(cycle.len()).len(), cycle);
        },
        PictureOrder::AsDecoded => {
            law_variable_length_is_read_back(s, at, 2);
        },
    }
}

/// The size that a parameter set states is read from its bits, whatever else it states and whatever
/// follows: sixteen pixels for each block, and twice that down where pictures are made of two
/// fields.
pub proof fn law_stated_size_is_read(s: Seq<u8>, p: StatedSize)
    requires
        stated_fits(p),
        written(s, 0, stated_bits(p)),
    ensures
        size_in(s) == Some(
            (
                16 * p.blocks_across,
                if p.whole_frames {
                    16 * p.blocks_down
                } else {
                    32 * p.blocks_down
                },
            ),
        ),
{
    let at = lemma_front_is_read(s, p);
    lemma_size_is_read(s, at, p);
}

/// Reading gets behind the fields that the profile decides about.
proof fn lemma_front_is_read(s: Seq<u8>, p: StatedSize) -> (at: int)
    requires
        stated_fits(p),
        written(s, 0, stated_bits(p)),
    ensures
        behind_front(s) == Some(at),
        written(s, at, size_bits(p)),
{
    let colour = if states_colour(p.profile) {
        colour_bits(p.colour, p.lists)
    } else {
        Seq::empty()
    };
    lemma2_to64();
    let r2 = colour + size_bits(p);
    let r1 = coded(p.id) + r2;
    lemma_written_split(s, 0, binary(p.profile, 8), binary(p.level, 16) + r1);
    law_fixed_length_is_read_back(s, 0, p.profile, 8);
    lemma_written_split(s, 8, binary(p.level, 16), r1);
    law_fixed_length_is_read_back(s, 8, p.level, 16);
    lemma_written_split(s, 24, coded(p.id), r2);
    law_variable_length_is_read_back(s, 24, p.id);
    let a: int = 24int + coded(p.id).len();
    lemma_written_split(s, a, colour, size_bits(p));
    lemma_profiles(p.profile);
    if states_colour(p.profile) {
        lemma_colour(s, a, p.colour, p.lists);
    }
    a + colour.len()
}

/// Reading goes on from there to the size.
proof fn lemma_size_is_read(s: Seq<u8>, b: int, p: StatedSize)
    requires
        stated_fits(p),
        written(s, b, size_bits(p)),
    ensures
        size_from(s, Some(b)) == Some(
            (
                16 * p.blocks_across,
                if p.whole_frames {
                    16 * p.blocks_down
                } else {
                    32 * p.blocks_down
                },
            ),
        ),
{
    let across = coded((p.blocks_across - 1) as nat);
    let down = coded((p.blocks_down - 1) as nat);
    let last = seq![p.whole_frames];
    let r6 = down + last;
    let r5 = across + r6;
    let r4 = seq![p.gaps] + r5;
    let r3 = coded(p.references) + r4;
    lemma_written_split(s, b, coded(p.frame_numbers), order_bits(p.order) + r3);
    law_variable_length_is_read_back(s, b, p.frame_numbers);
    let c: int = b + coded(p.frame_numbers).len();
    lemma_written_split(s, c, order_bits(p.order), r3);
    lemma_order(s, c, p.order);
    let d: int = c + order_bits(p.order).len();
    lemma_written_split(s, d, coded(p.references), r4);
    law_variable_length_is_read_back(s, d, p.references);
    let e: int = d + coded(p.references).len();
    lemma_written_split(s, e, seq![p.gaps], r5);
    lemma_one_bit(s, e, p.gaps);
    lemma_written_split(s, e + 1, across, r6);
    law_variable_length_is_read_back(s, e + 1, (p.blocks_across - 1) as nat);
    let f: int = e + 1 + across.len();
    lemma_written_split(s, f, down, last);
    law_variable_length_is_read_back(s, f, (p.blocks_down - 1) as nat);
    lemma_one_bit(s, f + down.len(), p.whole_frames);
}

proof fn lemma_profiles(profile: nat)
    ensures
        states_colour(profile) == high_profile(profile),
{
    let list = seq![100nat, 110, 122, 244, 44, 83, 86, 118, 128, 138, 139, 134, 135];
    assert(list[0] == 100 && list[1] == 110 && list[2] == 122 && list[3] == 244 && list[4] == 44
        && list[5] == 83 && list[6] == 86 && list[7] == 118 && list[8] == 128 && list[9] == 138
        && list[10] == 139 && list[11] == 134 && list[12] == 135);
}

/// The bytes with a three in front of every byte of at most three that two zeros precede, so that no
/// start code appears.
pub open spec fn escaped(s: Seq<u8>, zeros: nat) -> Seq<u8>
    decreases s.len(),
{
    if s.len() == 0 {
        Seq::empty()
    } else if zeros >= 2 && s[0] <= 3 {
        seq![3u8, s[0]] + escaped(
            s.skip(1),
            if s[0] == 0 {
                1
            } else {
                0
            },
        )
    } else {
        seq![s[0]] + escaped(
            s.skip(1),
            if s[0] == 0 {
                zeros + 1
            } else {
                0
            },
        )
    }
}

/// Taking out the bytes that keep a start code from appearing undoes putting them in.
pub proof fn law_escapes_are_undone(s: Seq<u8>, zeros: nat)
    ensures
        unescaped(escaped(s, zeros), zeros) == s,
    decreases s.len(),
{
    let e = escaped(s, zeros);
    if s.len() > 0 {
        let rest = s.skip(1);
        assert(s =~= seq![s[0]] + rest);
        if zeros >= 2 && s[0] <= 3 {
            let now: nat = if s[0] == 0 {
                1
            } else {
                0
            };
            law_escapes_are_undone(rest, now);
            let behind = seq![s[0]] + escaped(rest, now);
            assert(e.skip(1) =~= behind);
            assert(behind.skip(1) =~= escaped(rest, now));
            assert(behind[0] == s[0]);
            assert(unescaped(behind, 0) == seq![s[0]] + unescaped(escaped(rest, now), now));
        } else {
            let now = if s[0] == 0 {
                zeros + 1
            } else {
                0
            };
            law_escapes_are_undone(rest, now);
            assert(e.skip(1) =~= escaped(rest, now));
        }
    }
}

/// The size of a parameter set as it stands in a stream, behind its type and with its escapes. A size
/// that takes more than 32 bits is none.
pub proof fn law_size_of_a_parameter_set(first: u8, s: Seq<u8>, p: StatedSize)
    requires
        stated_fits(p),
        written(s, 0, stated_bits(p)),
    ensures
        ({
            let width = 16 * p.blocks_across;
            let height = if p.whole_frames {
                16 * p.blocks_down
            } else {
                32 * p.blocks_down
            };
            first % 32 == 7 ==> size_of(seq![first] + escaped(s, 0)) == if width <= u32::MAX
                && height <= u32::MAX {
                Some((width, height))
            } else {
                None
            }
        }),
        first % 32 != 7 ==> size_of(seq![first] + escaped(s, 0)) is None,
{
    let unit = seq![first] + escaped(s, 0);
    assert(unit.skip(1) =~= escaped(s, 0));
    law_escapes_are_undone(s, 0);
    law_stated_size_is_read(s, p);
}

} // verus!
