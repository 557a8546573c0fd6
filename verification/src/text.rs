//! Text helpers: blank strings, decimal numbers and CPU lists.
use vstd::prelude::*;
use vstd::string::StrSliceExecFns;

verus! {

/// Whether `c` is white space (the Unicode property `White_Space`).
pub open spec fn is_space(c: char) -> bool {
    let u = c as u32;
    (9 <= u <= 13) || u == 32 || u == 0x85 || u == 0xa0 || u == 0x1680 || (0x2000 <= u <= 0x200a) || u
        == 0x2028 || u == 0x2029 || u == 0x202f || u == 0x205f || u == 0x3000
}

/// Whether `s` holds nothing but white space.
pub open spec fn is_blank(s: Seq<char>) -> bool {
    forall|i: int| 0 <= i < s.len() ==> is_space(#[trigger] s[i])
}

/// Whether `c` is white space.
pub fn char_is_space(c: char) -> (r: bool)
    ensures
        r == is_space(c),
{
    let u = c as u32;
    (9 <= u && u <= 13) || u == 32 || u == 0x85 || u == 0xa0 || u == 0x1680 || (0x2000 <= u && u <= 0x200a)
        || u == 0x2028 || u == 0x2029 || u == 0x202f || u == 0x205f || u == 0x3000
}

/// The characters of `s`.
pub fn chars_of(s: &str) -> (v: Vec<char>)
    ensures
        v@ == s@,
{
    let n = s.unicode_len();
    let mut v: Vec<char> = Vec::new();
    let mut i: usize = 0;
    while i < n
        invariant
            n == s@.len(),
            i <= n,
            v@ == s@.take(i as int),
        decreases n - i,
    {
        v.push(s.get_char(i));
        i += 1;
        assert(v@ =~= s@.take(i as int));
    }
    assert(s@.take(n as int) =~= s@);
    v
}

/// Whether `s` is empty once white space is trimmed from its ends.
pub fn str_is_blank(s: &str) -> (r: bool)
    ensures
        r == is_blank(s@),
{
    let v = chars_of(s);
    let mut i: usize = 0;
    while i < v.len()
        invariant
            v@ == s@,
            i <= v@.len(),
            forall|j: int| 0 <= j < i ==> is_space(#[trigger] v@[j]),
        decreases v@.len() - i,
    {
        if !char_is_space(v[i]) {
            return false;
        }
        i += 1;
    }
    true
}

/// Whether `s` contains the character `c`.
pub fn str_contains_char(s: &str, c: char) -> (r: bool)
    ensures
        r == s@.contains(c),
{
    let v = chars_of(s);
    let mut i: usize = 0;
    while i < v.len()
        invariant
            v@ == s@,
            i <= v@.len(),
            forall|j: int| 0 <= j < i ==> v@[j] != c,
        decreases v@.len() - i,
    {
        if v[i] == c {
            return true;
        }
        i += 1;
    }
    false
}

/// The value of the decimal digit `c`, if it is one.
pub open spec fn digit_of(c: char) -> Option<nat> {
    if 48 <= c as u32 <= 57 {
        Some((c as u32 - 48) as nat)
    } else {
        None
    }
}

/// The number that the characters of `s` from `lo` up to `hi` spell in
/// decimal digits, if they are digits and at least one.
pub open spec fn digits_value(s: Seq<char>, lo: int, hi: int) -> Option<nat>
    decreases hi - lo,
{
    if hi <= lo {
        None
    } else {
        match digit_of(s[hi - 1]) {
            None => None,
            Some(d) => if hi - 1 == lo {
                Some(d)
            } else {
                match digits_value(s, lo, hi - 1) {
                    Some(v) => Some(v * 10 + d),
                    None => None,
                }
            },
        }
    }
}

/// The number that the characters of `s` from `lo` up to `hi` denote as an
/// unsigned machine integer below or at `max`: decimal digits, which a plus
/// sign may precede. Anything else, or a number above `max`, denotes nothing.
pub open spec fn parse_unsigned(s: Seq<char>, lo: int, hi: int, max: nat) -> Option<nat> {
    let start = if hi - lo >= 2 && s[lo] == '+' {
        lo + 1
    } else {
        lo
    };
    match digits_value(s, start, hi) {
        Some(v) => if v <= max {
            Some(v)
        } else {
            None
        },
        None => None,
    }
}

/// More digits never spell a smaller number.
proof fn lemma_digits_grow(s: Seq<char>, lo: int, mid: int, hi: int)
    requires
        lo < mid <= hi,
        digits_value(s, lo, hi) is Some,
    ensures
        digits_value(s, lo, mid) is Some,
        digits_value(s, lo, mid).unwrap() <= digits_value(s, lo, hi).unwrap(),
    decreases hi - mid,
{
    if mid < hi {
        lemma_digits_grow(s, lo, mid, hi - 1);
    }
}

/// A run that holds something other than a digit spells no number.
proof fn lemma_digits_need_digits(s: Seq<char>, lo: int, k: int, hi: int)
    requires
        lo <= k < hi,
        digit_of(s[k]) is None,
    ensures
        digits_value(s, lo, hi) is None,
    decreases hi - k,
{
    if k < hi - 1 {
        lemma_digits_need_digits(s, lo, k, hi - 1);
    }
}

/// Reads the unsigned number, at most `max`, that the characters of `v`
/// from `lo` up to `hi` denote.
pub fn read_unsigned(v: &Vec<char>, lo: usize, hi: usize, max: u64) -> (r: Option<u64>)
    requires
        lo <= hi <= v@.len(),
    ensures
        match r {
            Some(n) => parse_unsigned(v@, lo as int, hi as int, max as nat) == Some(n as nat),
            None => parse_unsigned(v@, lo as int, hi as int, max as nat) is None,
        },
{
    let start = if hi - lo >= 2 && v[lo] == '+' {
        lo + 1
    } else {
        lo
    };
    if start >= hi {
        return None;
    }
    let mut acc: u64 = 0;
    let mut i: usize = start;
    while i < hi
        invariant
            lo <= start <= i <= hi <= v@.len(),
            start < hi,
            start == (if hi - lo >= 2 && v@[lo as int] == '+' {
                lo + 1
            } else {
                lo as int
            }),
            i == start ==> acc == 0,
            i > start ==> digits_value(v@, start as int, i as int) == Some(acc as nat),
            acc <= max,
        decreases hi - i,
    {
        let u = v[i] as u32;
        if u < 48 || u > 57 {
            proof {
                lemma_digits_need_digits(v@, start as int, i as int, hi as int);
            }
            return None;
        }
        let d = (u - 48) as u64;
        let next: u128 = acc as u128 * 10 + d as u128;
        proof {
            assert(digits_value(v@, start as int, i + 1) == Some(next as nat));
        }
        if next > max as u128 {
            proof {
                if digits_value(v@, start as int, hi as int) is Some {
                    lemma_digits_grow(v@, start as int, i + 1, hi as int);
                }
            }
            return None;
        }
        acc = next as u64;
        i += 1;
    }
    Some(acc)
}

/// The index of the first `c` among the characters of `s` from `lo` up to
/// `hi`, or `hi` if there is none.
pub open spec fn find_char(s: Seq<char>, lo: int, hi: int, c: char) -> int
    decreases hi - lo,
{
    if lo >= hi {
        hi
    } else if s[lo] == c {
        lo
    } else {
        find_char(s, lo + 1, hi, c)
    }
}

/// The index of the first character from `lo` up to `hi` that is not white
/// space, or `hi` if there is none.
pub open spec fn skip_spaces(s: Seq<char>, lo: int, hi: int) -> int
    decreases hi - lo,
{
    if lo >= hi {
        hi
    } else if is_space(s[lo]) {
        skip_spaces(s, lo + 1, hi)
    } else {
        lo
    }
}

/// The index after the last character from `lo` up to `hi` that is not white
/// space, or `lo` if there is none.
pub open spec fn drop_spaces(s: Seq<char>, lo: int, hi: int) -> int
    decreases hi - lo,
{
    if hi <= lo {
        lo
    } else if is_space(s[hi - 1]) {
        drop_spaces(s, lo, hi - 1)
    } else {
        hi
    }
}

/// Whether the entry that the characters from `lo` up to `hi` spell names
/// `cpu`: a range `a-b` with `a <= cpu <= b`, or the number `cpu` itself. An
/// entry with a dash is a range whatever else it holds; an entry that does
/// not parse names nothing.
pub open spec fn entry_names(s: Seq<char>, lo: int, hi: int, cpu: usize) -> bool {
    let dash = find_char(s, lo, hi, '-');
    if dash < hi {
        match (parse_unsigned(s, lo, dash, usize::MAX as nat), parse_unsigned(s, dash + 1, hi, usize::MAX as nat)) {
            (Some(a), Some(b)) => a <= cpu <= b,
            _ => false,
        }
    } else {
        parse_unsigned(s, lo, hi, usize::MAX as nat) == Some(cpu as nat)
    }
}

/// Whether one of the comma-separated entries from `from` on names `cpu`.
/// White space around an entry is ignored.
pub open spec fn list_names(s: Seq<char>, from: int, cpu: usize) -> bool
    decreases s.len() - from,
{
    if from < 0 || from > s.len() {
        false
    } else {
        let end = find_char(s, from, s.len() as int, ',');
        let a = skip_spaces(s, from, end);
        let b = drop_spaces(s, a, end);
        proof {
            lemma_find_char_bounds(s, from, s.len() as int, ',');
        }
        entry_names(s, a, b, cpu) || (end < s.len() && list_names(s, end + 1, cpu))
    }
}

/// The first occurrence lies within the range searched.
pub proof fn lemma_find_char_bounds(s: Seq<char>, lo: int, hi: int, c: char)
    requires
        lo <= hi,
    ensures
        lo <= find_char(s, lo, hi, c) <= hi,
    decreases hi - lo,
{
    if lo < hi && s[lo] != c {
        lemma_find_char_bounds(s, lo + 1, hi, c);
    }
}

fn find(v: &Vec<char>, lo: usize, hi: usize, c: char) -> (r: usize)
    requires
        lo <= hi <= v@.len(),
    ensures
        r == find_char(v@, lo as int, hi as int, c),
        lo <= r <= hi,
{
    let mut i = lo;
    while i < hi
        invariant
            lo <= i <= hi <= v@.len(),
            find_char(v@, lo as int, hi as int, c) == find_char(v@, i as int, hi as int, c),
        decreases hi - i,
    {
        if v[i] == c {
            return i;
        }
        i += 1;
    }
    i
}

fn skip(v: &Vec<char>, lo: usize, hi: usize) -> (r: usize)
    requires
        lo <= hi <= v@.len(),
    ensures
        r == skip_spaces(v@, lo as int, hi as int),
        lo <= r <= hi,
{
    let mut i = lo;
    while i < hi
        invariant
            lo <= i <= hi <= v@.len(),
            skip_spaces(v@, lo as int, hi as int) == skip_spaces(v@, i as int, hi as int),
        decreases hi - i,
    {
        if !char_is_space(v[i]) {
            return i;
        }
        i += 1;
    }
    i
}

fn drop_trailing(v: &Vec<char>, lo: usize, hi: usize) -> (r: usize)
    requires
        lo <= hi <= v@.len(),
    ensures
        r == drop_spaces(v@, lo as int, hi as int),
        lo <= r <= hi,
{
    let mut i = hi;
    while i > lo
        invariant
            lo <= i <= hi <= v@.len(),
            drop_spaces(v@, lo as int, hi as int) == drop_spaces(v@, lo as int, i as int),
        decreases i - lo,
    {
        if !char_is_space(v[i - 1]) {
            return i;
        }
        i -= 1;
    }
    i
}

fn entry_has(v: &Vec<char>, lo: usize, hi: usize, cpu_id: usize) -> (r: bool)
    requires
        lo <= hi <= v@.len(),
    ensures
        r == entry_names(v@, lo as int, hi as int, cpu_id),
{
    let dash = find(v, lo, hi, '-');
    if dash < hi {
        let a = read_unsigned(v, lo, dash, usize::MAX as u64);
        let b = read_unsigned(v, dash + 1, hi, usize::MAX as u64);
        match (a, b) {
            (Some(x), Some(y)) => x <= cpu_id as u64 && cpu_id as u64 <= y,
            _ => false,
        }
    } else {
        match read_unsigned(v, lo, hi, usize::MAX as u64) {
            Some(x) => x == cpu_id as u64,
            None => false,
        }
    }
}

/// Whether the CPU list `cpulist`, in the form `0-3,8,10-11`, names `cpu_id`.
pub fn cpulist_contains(cpulist: &str, cpu_id: usize) -> (r: bool)
    ensures
        r == list_names(cpulist@, 0, cpu_id),
{
    let v = chars_of(cpulist);
    let n = v.len();
    let mut from: usize = 0;
    loop
        invariant
            v@ == cpulist@,
            n == v@.len(),
            from <= n,
            list_names(v@, 0, cpu_id) == list_names(v@, from as int, cpu_id),
        decreases n - from,
    {
        let end = find(&v, from, n, ',');
        let a = skip(&v, from, end);
        let b = drop_trailing(&v, a, end);
        if entry_has(&v, a, b, cpu_id) {
            return true;
        }
        if end >= n {
            return false;
        }
        from = end + 1;
    }
}

} // verus!
