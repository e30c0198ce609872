//! Text as sequences of characters: trimming, searching, replacing and decimal numbers.

use vstd::prelude::*;

verus! {

/// `String::push` of the standard library: it appends the given character to the end of the
/// string.
pub assume_specification[ String::push ](s: &mut String, c: char)
    ensures
        final(s)@ == old(s)@.push(c),
;

/// A text in double quotes, with escapes for the characters that need them: the debug form that
/// the standard library gives to a string.
pub uninterp spec fn debug_text(s: Seq<char>) -> Seq<char>;

/// `format!` with `{:?}` of a string: its debug form, which depends on the string alone.
#[verifier::external_body]
pub(crate) fn debug_form(s: &str) -> (r: String)
    ensures
        r@ == debug_text(s@),
{
    format!("{s:?}")
}

/// The characters of a string.
pub fn chars_of(s: &str) -> (out: Vec<char>)
    ensures
        out@ == s@,
{
    let mut out: Vec<char> = Vec::new();
    for c in it: s.chars()
        invariant
            it.seq() == s@,
            out@ == s@.take(it.index()),
    {
        out.push(c);
        proof {
            assert(out@ =~= s@.take(it.index() + 1));
        }
    }
    proof {
        assert(s@.take(s@.len() as int) =~= s@);
    }
    out
}

/// The string of some characters.
pub fn string_of(chars: &Vec<char>) -> (out: String)
    ensures
        out@ == chars@,
{
    let mut out: String = String::new();
    let mut i: usize = 0;
    while i < chars.len()
        invariant
            i <= chars@.len(),
            out@ == chars@.take(i as int),
        decreases chars.len() - i,
    {
        out.push(chars[i]);
        i += 1;
        proof {
            assert(out@ =~= chars@.take(i as int));
        }
    }
    proof {
        assert(chars@.take(i as int) =~= chars@);
    }
    out
}

/// A string that may be missing, by its characters.
pub open spec fn option_view(s: Option<String>) -> Option<Seq<char>> {
    match s {
        Some(s) => Some(s@),
        None => None,
    }
}

/// The characters from one index up to another.
pub fn part(chars: &Vec<char>, from: usize, to: usize) -> (out: Vec<char>)
    requires
        from <= to <= chars@.len(),
    ensures
        out@ == chars@.subrange(from as int, to as int),
{
    let mut out: Vec<char> = Vec::new();
    let mut i: usize = from;
    while i < to
        invariant
            from <= i <= to <= chars@.len(),
            out@ == chars@.subrange(from as int, i as int),
        decreases to - i,
    {
        out.push(chars[i]);
        i += 1;
        proof {
            assert(out@ =~= chars@.subrange(from as int, i as int));
        }
    }
    out
}

/// Append the characters of a string.
pub fn push_text(out: &mut Vec<char>, s: &str)
    ensures
        final(out)@ == old(out)@ + s@,
{
    let mut more: Vec<char> = chars_of(s);
    out.append(&mut more);
}

/// Whether two strings hold the same characters.
pub fn same_text(a: &str, b: &str) -> (r: bool)
    ensures
        r == (a@ == b@),
{
    let x: Vec<char> = chars_of(a);
    let y: Vec<char> = chars_of(b);
    same_chars(&x, &y)
}

/// Whether two lists hold the same characters.
pub fn same_chars(a: &Vec<char>, b: &Vec<char>) -> (r: bool)
    ensures
        r == (a@ == b@),
{
    if a.len() != b.len() {
        return false;
    }
    let mut i: usize = 0;
    while i < a.len()
        invariant
            i <= a@.len(),
            a@.len() == b@.len(),
            forall|j: int| 0 <= j < i ==> a@[j] == b@[j],
        decreases a.len() - i,
    {
        if a[i] != b[i] {
            return false;
        }
        i += 1;
    }
    proof {
        assert(a@ =~= b@);
    }
    true
}

/// Whether a character is white space: the Unicode property `White_Space`.
pub open spec fn white_space(c: char) -> bool {
    let n = c as u32;
    ||| 0x9 <= n <= 0xD
    ||| n == 0x20
    ||| n == 0x85
    ||| n == 0xA0
    ||| n == 0x1680
    ||| 0x2000 <= n <= 0x200A
    ||| n == 0x2028
    ||| n == 0x2029
    ||| n == 0x202F
    ||| n == 0x205F
    ||| n == 0x3000
}

/// Whether a character is white space.
pub fn is_white_space(c: char) -> (r: bool)
    ensures
        r == white_space(c),
{
    let n: u32 = c as u32;
    (0x9 <= n && n <= 0xD) || n == 0x20 || n == 0x85 || n == 0xA0 || n == 0x1680 || (0x2000 <= n && n
        <= 0x200A) || n == 0x2028 || n == 0x2029 || n == 0x202F || n == 0x205F || n == 0x3000
}

/// The text without the white space at its start.
pub open spec fn trimmed_start(s: Seq<char>) -> Seq<char>
    decreases s.len(),
{
    if s.len() > 0 && white_space(s[0]) {
        trimmed_start(s.skip(1))
    } else {
        s
    }
}

/// The text without the white space at its end.
pub open spec fn trimmed_end(s: Seq<char>) -> Seq<char>
    decreases s.len(),
{
    if s.len() > 0 && white_space(s.last()) {
        trimmed_end(s.drop_last())
    } else {
        s
    }
}

/// The text without the white space at both of its ends.
pub open spec fn trimmed(s: Seq<char>) -> Seq<char> {
    trimmed_end(trimmed_start(s))
}

/// Remove the white space at both ends.
pub fn trim(chars: &Vec<char>) -> (out: Vec<char>)
    ensures
        out@ == trimmed(chars@),
{
    let n: usize = chars.len();
    let mut lo: usize = 0;
    proof {
        assert(chars@.subrange(0, n as int) =~= chars@);
    }
    while lo < n && is_white_space(chars[lo])
        invariant
            lo <= n == chars@.len(),
            trimmed_start(chars@) == trimmed_start(chars@.subrange(lo as int, n as int)),
        decreases n - lo,
    {
        proof {
            let here = chars@.subrange(lo as int, n as int);
            assert(here.skip(1) =~= chars@.subrange(lo + 1, n as int));
        }
        lo += 1;
    }
    let ghost started = chars@.subrange(lo as int, n as int);
    proof {
        assert(trimmed_start(chars@) == started);
    }
    let mut hi: usize = n;
    while hi > lo && is_white_space(chars[hi - 1])
        invariant
            lo <= hi <= n == chars@.len(),
            trimmed_end(started) == trimmed_end(chars@.subrange(lo as int, hi as int)),
        decreases hi,
    {
        proof {
            let here = chars@.subrange(lo as int, hi as int);
            assert(here.drop_last() =~= chars@.subrange(lo as int, hi - 1));
        }
        hi -= 1;
    }
    part(chars, lo, hi)
}

/// Where `pat` first occurs in `s`, if it does.
pub open spec fn first_at(s: Seq<char>, pat: Seq<char>) -> Option<nat>
    decreases s.len(),
{
    if s.len() < pat.len() {
        None
    } else if s.take(pat.len() as int) =~= pat {
        Some(0)
    } else if s.len() == 0 {
        None
    } else {
        match first_at(s.skip(1), pat) {
            Some(i) => Some(i + 1),
            None => None,
        }
    }
}

/// Whether `pat` stands at an index of `s`.
pub open spec fn stands(s: Seq<char>, pat: Seq<char>, at: int) -> bool {
    &&& 0 <= at
    &&& at + pat.len() <= s.len()
    &&& s.subrange(at, at + pat.len()) == pat
}

/// Where a text is found it stands, and it stands nowhere before; where it is not found it stands
/// nowhere.
pub proof fn law_first_occurrence(s: Seq<char>, pat: Seq<char>)
    ensures
        match first_at(s, pat) {
            Some(i) => stands(s, pat, i as int) && forall|j: int| j < i ==> !stands(s, pat, j),
            None => forall|j: int| !stands(s, pat, j),
        },
    decreases s.len(),
{
    let n = pat.len() as int;
    if s.len() >= n {
        assert(s.take(n) =~= s.subrange(0, n));
        if !(s.take(n) =~= pat) && s.len() > 0 {
            let rest = s.skip(1);
            law_first_occurrence(rest, pat);
            assert forall|j: int| stands(s, pat, j) implies j > 0 && stands(rest, pat, j - 1) by {
                assert(rest.subrange(j - 1, j - 1 + n) =~= s.subrange(j, j + n));
            }
            if let Some(i) = first_at(rest, pat) {
                assert(s.subrange((i + 1) as int, i + 1 + n) =~= rest.subrange(i as int, i + n));
            }
        }
    }
}

/// Whether `pat` stands at an index.
fn stands_at(chars: &Vec<char>, at: usize, pat: &Vec<char>) -> (r: bool)
    requires
        at + pat@.len() <= chars@.len(),
    ensures
        r == (chars@.subrange(at as int, at + pat@.len()) == pat@),
{
    let total: usize = chars.len();
    let mut k: usize = 0;
    while k < pat.len()
        invariant
            k <= pat@.len(),
            at + pat@.len() <= chars@.len() == total,
            forall|j: int| 0 <= j < k ==> chars@[at + j] == pat@[j],
        decreases pat.len() - k,
    {
        if chars[at + k] != pat[k] {
            proof {
                assert(chars@.subrange(at as int, at + pat@.len())[k as int] != pat@[k as int]);
            }
            return false;
        }
        k += 1;
    }
    proof {
        assert(chars@.subrange(at as int, at + pat@.len()) =~= pat@);
    }
    true
}

/// An index into the rest of a text behind `by` characters, as one into the whole text.
spec fn shifted(r: Option<nat>, by: nat) -> Option<nat> {
    match r {
        Some(i) => Some(i + by),
        None => None,
    }
}

/// Find where `pat` first occurs.
pub fn find(chars: &Vec<char>, pat: &Vec<char>) -> (r: Option<usize>)
    ensures
        match r {
            Some(i) => first_at(chars@, pat@) == Some(i as nat),
            None => first_at(chars@, pat@) is None,
        },
        r matches Some(i) ==> i + pat@.len() <= chars@.len(),
{
    let n: usize = pat.len();
    let mut at: usize = 0;
    proof {
        assert(chars@.skip(0) =~= chars@);
    }
    while at <= chars.len() && n <= chars.len() - at
        invariant
            n == pat@.len(),
            at <= chars@.len() + 1,
            at == chars@.len() + 1 ==> first_at(chars@, pat@) is None,
            at <= chars@.len() ==> first_at(chars@, pat@) == shifted(
                first_at(chars@.skip(at as int), pat@),
                at as nat,
            ),
        decreases chars.len() + 1 - at,
    {
        let ghost here = chars@.skip(at as int);
        proof {
            assert(here.take(n as int) =~= chars@.subrange(at as int, at + n));
        }
        if stands_at(chars, at, pat) {
            return Some(at);
        }
        if at == chars.len() {
            return None;
        }
        proof {
            assert(here.skip(1) =~= chars@.skip(at + 1));
        }
        at += 1;
    }
    None
}

/// Find where a string first occurs.
pub fn find_text(chars: &Vec<char>, pat: &str) -> (r: Option<usize>)
    ensures
        match r {
            Some(i) => first_at(chars@, pat@) == Some(i as nat),
            None => first_at(chars@, pat@) is None,
        },
        r matches Some(i) ==> i + pat@.len() <= chars@.len(),
{
    let pat: Vec<char> = chars_of(pat);
    find(chars, &pat)
}

/// The text with every occurrence of `pat`, found from the start and not overlapping, replaced.
pub open spec fn replaced(s: Seq<char>, pat: Seq<char>, by: Seq<char>) -> Seq<char>
    decreases s.len(),
{
    match first_at(s, pat) {
        Some(i) => if 0 < pat.len() && i + pat.len() <= s.len() {
            s.take(i as int) + by + replaced(s.skip((i + pat.len()) as int), pat, by)
        } else {
            s
        },
        None => s,
    }
}

/// Replace every occurrence of a text that is not empty.
pub fn replace(chars: &Vec<char>, pat: &Vec<char>, by: &Vec<char>) -> (out: Vec<char>)
    requires
        pat@.len() > 0,
    ensures
        out@ == replaced(chars@, pat@, by@),
{
    let mut out: Vec<char> = Vec::new();
    let mut rest: Vec<char> = part(chars, 0, chars.len());
    proof {
        assert(rest@ =~= chars@);
        assert(out@ + replaced(rest@, pat@, by@) =~= replaced(chars@, pat@, by@));
    }
    loop
        invariant
            pat@.len() > 0,
            out@ + replaced(rest@, pat@, by@) == replaced(chars@, pat@, by@),
        decreases rest@.len(),
    {
        let ghost before = out@;
        match find(&rest, pat) {
            Some(at) => {
                let mut kept: Vec<char> = part(&rest, 0, at);
                let mut filled: Vec<char> = part(by, 0, by.len());
                let total: usize = rest.len();
                let left: Vec<char> = part(&rest, at + pat.len(), total);
                proof {
                    assert(kept@ =~= rest@.take(at as int));
                    assert(filled@ =~= by@);
                    assert(left@ =~= rest@.skip(at + pat@.len()));
                    assert(before + (rest@.take(at as int) + by@ + replaced(left@, pat@, by@))
                        =~= ((before + kept@) + filled@) + replaced(left@, pat@, by@));
                }
                out.append(&mut kept);
                out.append(&mut filled);
                rest = left;
            },
            None => {
                out.append(&mut rest);
                return out;
            },
        }
    }
}

/// A text in which there is nothing to replace does not change.
pub proof fn law_nothing_to_replace(s: Seq<char>, pat: Seq<char>, by: Seq<char>)
    requires
        first_at(s, pat) is None,
    ensures
        replaced(s, pat, by) == s,
{
}

/// The text up to the first line feed.
pub open spec fn first_line(s: Seq<char>) -> Seq<char> {
    match first_at(s, seq!['\n']) {
        Some(i) => s.take(i as int),
        None => s,
    }
}

/// The text behind the first line feed.
pub open spec fn after_line(s: Seq<char>) -> Seq<char> {
    match first_at(s, seq!['\n']) {
        Some(i) => s.skip((i + 1) as int),
        None => Seq::empty(),
    }
}

/// Taking a line off a text makes it shorter.
pub proof fn lemma_line_shortens(s: Seq<char>)
    requires
        s.len() > 0,
    ensures
        after_line(s).len() < s.len(),
{
    law_first_occurrence(s, seq!['\n']);
}

/// Split a text into its first line and the rest.
pub fn split_line(chars: &Vec<char>) -> (r: (Vec<char>, Vec<char>))
    ensures
        r.0@ == first_line(chars@),
        r.1@ == after_line(chars@),
{
    let mut newline: Vec<char> = Vec::new();
    newline.push('\n');
    proof {
        assert(newline@ =~= seq!['\n']);
    }
    match find(chars, &newline) {
        Some(i) => {
            proof {
                assert(chars@.take(i as int) =~= chars@.subrange(0, i as int));
                assert(chars@.skip(i + 1) =~= chars@.subrange(i + 1, chars@.len() as int));
            }
            let total: usize = chars.len();
            (part(chars, 0, i), part(chars, i + 1, total))
        },
        None => {
            proof {
                assert(chars@.subrange(0, chars@.len() as int) =~= chars@);
            }
            (part(chars, 0, chars.len()), Vec::new())
        },
    }
}

/// The decimal digit of a number below ten.
pub open spec fn digit(n: nat) -> char {
    (n + 0x30) as char
}

/// A number in decimal, without leading zeros.
pub open spec fn decimal(n: nat) -> Seq<char>
    decreases n,
{
    if n < 10 {
        seq![digit(n)]
    } else {
        decimal(n / 10).push(digit(n % 10))
    }
}

/// Whether a text is made of decimal digits.
pub open spec fn all_digits(s: Seq<char>) -> bool {
    forall|i: int| 0 <= i < s.len() ==> '0' <= #[trigger] s[i] <= '9'
}

/// The number that a text of decimal digits stands for.
pub open spec fn digits_value(s: Seq<char>) -> nat
    decreases s.len(),
{
    if s.len() == 0 {
        0
    } else {
        digits_value(s.drop_last()) * 10 + (s.last() as nat - 0x30) as nat
    }
}

/// The decimal form of a number is made of digits and stands for it.
pub proof fn law_decimal_round_trip(n: nat)
    ensures
        decimal(n).len() > 0,
        all_digits(decimal(n)),
        digits_value(decimal(n)) == n,
    decreases n,
{
    if n < 10 {
        assert(decimal(n).drop_last() =~= Seq::<char>::empty());
        assert(digits_value(Seq::<char>::empty()) == 0);
    } else {
        law_decimal_round_trip(n / 10);
        assert(decimal(n).drop_last() =~= decimal(n / 10));
        assert forall|i: int| 0 <= i < decimal(n).len() implies '0' <= #[trigger] decimal(n)[i]
            <= '9' by {
            if i < decimal(n / 10).len() {
                assert(decimal(n)[i] == decimal(n / 10)[i]);
            }
        }
    }
}

/// Append a number in decimal.
pub fn push_decimal(out: &mut Vec<char>, n: u64)
    ensures
        final(out)@ == old(out)@ + decimal(n as nat),
    decreases n,
{
    if n >= 10 {
        push_decimal(out, n / 10);
    }
    let d: u8 = (n % 10) as u8;
    let c: char = (0x30 + d) as char;
    out.push(c);
    proof {
        assert(out@ =~= old(out)@ + decimal(n as nat));
    }
}

/// Read a text of decimal digits that stands for a number of at most `limit`; `None` for an empty
/// text, for anything else among the digits and for a larger number.
pub fn parse_decimal(chars: &Vec<char>, limit: u32) -> (r: Option<u32>)
    ensures
        match r {
            Some(n) => chars@.len() > 0 && all_digits(chars@) && digits_value(chars@) == n && n
                <= limit,
            None => !(chars@.len() > 0 && all_digits(chars@) && digits_value(chars@) <= limit),
        },
{
    if chars.len() == 0 {
        return None;
    }
    let mut value: u64 = 0;
    let mut i: usize = 0;
    while i < chars.len()
        invariant
            i <= chars@.len(),
            value <= limit,
            all_digits(chars@.take(i as int)),
            value == digits_value(chars@.take(i as int)),
        decreases chars.len() - i,
    {
        let c: char = chars[i];
        if c < '0' || c > '9' {
            return None;
        }
        let ghost front = chars@.take(i + 1);
        proof {
            assert(front.drop_last() =~= chars@.take(i as int));
            assert(front.last() == c);
            assert forall|j: int| 0 <= j < front.len() implies '0' <= #[trigger] front[j]
                <= '9' by {
                if j < i {
                    assert(front[j] == chars@.take(i as int)[j]);
                }
            }
        }
        value = value * 10 + (c as u32 - 0x30) as u64;
        if value > limit as u64 {
            proof {
                if all_digits(chars@) {
                    lemma_value_grows(chars@, i + 1);
                }
            }
            return None;
        }
        i += 1;
    }
    proof {
        assert(chars@.take(i as int) =~= chars@);
    }
    Some(value as u32)
}

/// More digits never make a smaller number.
proof fn lemma_value_grows(s: Seq<char>, i: int)
    requires
        0 <= i <= s.len(),
        all_digits(s),
    ensures
        digits_value(s.take(i)) <= digits_value(s),
    decreases s.len() - i,
{
    if i < s.len() {
        lemma_value_grows(s, i + 1);
        assert(s.take(i + 1).drop_last() =~= s.take(i));
        assert(s.take(i + 1).last() == s[i]);
    } else {
        assert(s.take(i) =~= s);
    }
}

proof fn lemma_trimmed_start(before: Seq<char>, rest: Seq<char>)
    requires
        forall|i: int| 0 <= i < before.len() ==> white_space(#[trigger] before[i]),
        rest.len() > 0 ==> !white_space(rest[0]),
    ensures
        trimmed_start(before + rest) == rest,
    decreases before.len(),
{
    let all = before + rest;
    if before.len() == 0 {
        assert(all =~= rest);
    } else {
        let less = before.skip(1);
        assert(all[0] == before[0]);
        assert(all.skip(1) =~= less + rest);
        assert forall|i: int| 0 <= i < less.len() implies white_space(#[trigger] less[i]) by {
            assert(less[i] == before[i + 1]);
        }
        lemma_trimmed_start(less, rest);
    }
}

proof fn lemma_trimmed_end(text: Seq<char>, after: Seq<char>)
    requires
        forall|i: int| 0 <= i < after.len() ==> white_space(#[trigger] after[i]),
        text.len() > 0 ==> !white_space(text[text.len() - 1]),
    ensures
        trimmed_end(text + after) == text,
    decreases after.len(),
{
    let all = text + after;
    if after.len() == 0 {
        assert(all =~= text);
        assert(text.len() > 0 ==> text.last() == text[text.len() - 1]);
    } else {
        let less = after.drop_last();
        assert(all.last() == after[after.len() - 1]);
        assert(all.drop_last() =~= text + less);
        assert forall|i: int| 0 <= i < less.len() implies white_space(#[trigger] less[i]) by {
            assert(less[i] == after[i]);
        }
        lemma_trimmed_end(text, less);
    }
}

/// Trimming takes the white space off both ends, all of it, and nothing else.
pub proof fn law_trim_takes_the_space(before: Seq<char>, text: Seq<char>, after: Seq<char>)
    requires
        forall|i: int| 0 <= i < before.len() ==> white_space(#[trigger] before[i]),
        forall|i: int| 0 <= i < after.len() ==> white_space(#[trigger] after[i]),
        text.len() > 0,
        !white_space(text[0]),
        !white_space(text[text.len() - 1]),
    ensures
        trimmed(before + text + after) == text,
{
    assert(before + text + after =~= before + (text + after));
    lemma_trimmed_start(before, text + after);
    lemma_trimmed_end(text, after);
}

/// A text is its first line, the line feed and what is behind it; a text without a line feed is one
/// line.
pub proof fn law_line_and_rest(s: Seq<char>)
    ensures
        s.contains('\n') ==> s == first_line(s) + seq!['\n'] + after_line(s),
        !s.contains('\n') ==> first_line(s) == s && after_line(s).len() == 0,
        !first_line(s).contains('\n'),
{
    let feed = seq!['\n'];
    law_first_occurrence(s, feed);
    match first_at(s, feed) {
        Some(at) => {
            let i = at as int;
            assert(stands(s, feed, i));
            assert(s.subrange(i, i + 1)[0] == s[i]);
            assert(s =~= s.take(i) + feed + s.skip(i + 1));
            assert(s[i] == '\n');
            if first_line(s).contains('\n') {
                let j = choose|j: int| 0 <= j < i && s.take(i)[j] == '\n';
                assert(s.subrange(j, j + 1) =~= feed);
                assert(stands(s, feed, j));
            }
        },
        None => {
            if s.contains('\n') {
                let j = choose|j: int| 0 <= j < s.len() && s[j] == '\n';
                assert(s.subrange(j, j + 1) =~= feed);
                assert(stands(s, feed, j));
            }
        },
    }
}

/// The first place at which a text stands is the one that is found.
pub proof fn lemma_found_at(s: Seq<char>, pat: Seq<char>, at: int)
    requires
        stands(s, pat, at),
        forall|j: int| 0 <= j < at ==> !#[trigger] stands(s, pat, j),
    ensures
        first_at(s, pat) == Some(at as nat),
{
    law_first_occurrence(s, pat);
    match first_at(s, pat) {
        Some(i) => {
            if i < at {
                assert(!stands(s, pat, i as int));
            }
            assert(at < i ==> !stands(s, pat, at));
        },
        None => {
            assert(!stands(s, pat, at));
        },
    }
}

/// Replacing goes from left to right: what stands before the first occurrence stays, the occurrence
/// becomes the other text, and the rest is treated alike.
pub proof fn law_replaced_from_the_left(
    before: Seq<char>,
    pat: Seq<char>,
    rest: Seq<char>,
    by: Seq<char>,
)
    requires
        pat.len() > 0,
        forall|j: int| 0 <= j < before.len() ==> !#[trigger] stands(before + pat + rest, pat, j),
    ensures
        replaced(before + pat + rest, pat, by) == before + by + replaced(rest, pat, by),
{
    let s = before + pat + rest;
    let at = before.len() as int;
    assert(s.subrange(at, at + pat.len()) =~= pat);
    lemma_found_at(s, pat, at);
    assert(s.take(at) =~= before);
    assert(s.skip(at + pat.len()) =~= rest);
}

/// Every digit of a decimal number counts ten times as much as the one behind it, and a number has
/// no more digits than it takes.
pub proof fn law_decimal_digits(n: nat, d: nat)
    requires
        d < 10,
    ensures
        n > 0 ==> decimal(n * 10 + d) == decimal(n) + decimal(d),
        decimal(d).len() == 1,
        decimal(d)[0] as nat == '0' as nat + d,
        n > 0 ==> decimal(n)[0] != '0',
    decreases n,
{
    assert((n * 10 + d) / 10 == n && (n * 10 + d) % 10 == d);
    assert(n > 0 ==> decimal(n * 10 + d) =~= decimal(n) + decimal(d));
    if n >= 10 {
        law_decimal_digits(n / 10, d);
        law_decimal_round_trip(n / 10);
    }
}

/// The characters that count as white space, by their numbers.
pub open spec fn spaces() -> Seq<u32> {
    seq![
        9u32, 10, 11, 12, 13, 32, 133, 160, 5760, 8192, 8193, 8194, 8195, 8196, 8197, 8198, 8199,
        8200, 8201, 8202, 8232, 8233, 8239, 8287, 12288,
    ]
}

/// A character is white space exactly if it is one of the 25 that are.
pub proof fn law_white_space(c: char)
    ensures
        white_space(c) <==> spaces().contains(c as u32),
        spaces().len() == 25,
{
    let n = c as u32;
    let s = spaces();
    assert(s[0] == 9 && s[1] == 10 && s[2] == 11 && s[3] == 12 && s[4] == 13 && s[5] == 32 && s[6]
        == 133 && s[7] == 160 && s[8] == 5760);
    assert(s[9] == 8192 && s[10] == 8193 && s[11] == 8194 && s[12] == 8195 && s[13] == 8196 && s[14]
        == 8197 && s[15] == 8198 && s[16] == 8199 && s[17] == 8200 && s[18] == 8201 && s[19]
        == 8202);
    assert(s[20] == 8232 && s[21] == 8233 && s[22] == 8239 && s[23] == 8287 && s[24] == 12288);
    if s.contains(n) {
        let i = choose|i: int| 0 <= i < s.len() && s[i] == n;
        assert(0 <= i < 25);
    }
}

} // verus!
