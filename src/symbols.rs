use vstd::prelude::*;
use vstd::string::*;

verus! {

/// A decimal digit.
pub open spec fn is_digit(c: char) -> bool {
    '0' <= c && c <= '9'
}

/// The value of a decimal digit.
pub open spec fn digit_value(c: char) -> nat {
    (c as u32 - '0' as u32) as nat
}

/// A non-empty run of decimal digits.
pub open spec fn is_numeral(s: Seq<char>) -> bool {
    s.len() > 0 && forall|i: int| 0 <= i < s.len() ==> is_digit(#[trigger] s[i])
}

/// The value of a run of decimal digits.
pub open spec fn numeral_value(s: Seq<char>) -> nat
    decreases s.len(),
{
    if s.len() == 0 {
        0
    } else {
        numeral_value(s.drop_last()) * 10 + digit_value(s.last())
    }
}

/// The address of a predefined symbol: `SP`, `LCL`, `ARG`, `THIS`, `THAT`,
/// `R0` to `R15`, `SCREEN` and `KBD`.
pub open spec fn predefined(s: Seq<char>) -> Option<u16> {
    if s.len() == 2 && s[0] == 'R' && is_digit(s[1]) {
        Some(digit_value(s[1]) as u16)
    } else if s.len() == 3 && s[0] == 'R' && s[1] == '1' && '0' <= s[2] && s[2] <= '5' {
        Some((10 + digit_value(s[2])) as u16)
    } else if s.len() == 2 {
        if s[0] == 'S' && s[1] == 'P' {
            Some(0u16)
        } else {
            None
        }
    } else if s.len() == 3 {
        match (s[0], s[1], s[2]) {
            ('L', 'C', 'L') => Some(1u16),
            ('A', 'R', 'G') => Some(2u16),
            ('K', 'B', 'D') => Some(0x6000u16),
            _ => None,
        }
    } else if s.len() == 4 {
        match (s[0], s[1], s[2], s[3]) {
            ('T', 'H', 'I', 'S') => Some(3u16),
            ('T', 'H', 'A', 'T') => Some(4u16),
            _ => None,
        }
    } else if s.len() == 6 && s[0] == 'S' && s[1] == 'C' && s[2] == 'R' && s[3] == 'E' && s[4]
        == 'E' && s[5] == 'N' {
        Some(0x4000u16)
    } else {
        None
    }
}

/// The texts of a sequence of strings.
pub open spec fn views(v: Seq<String>) -> Seq<Seq<char>> {
    v.map_values(|s: String| s@)
}

/// The position of the last occurrence of `name`, or -1.
pub open spec fn find(names: Seq<Seq<char>>, name: Seq<char>) -> int
    decreases names.len(),
{
    if names.len() == 0 {
        -1
    } else if names.last() == name {
        names.len() - 1
    } else {
        find(names.drop_last(), name)
    }
}

/// `find` gives -1 or a position that holds the name.
pub proof fn lemma_find_bound(names: Seq<Seq<char>>, name: Seq<char>)
    ensures
        -1 <= find(names, name) < names.len(),
        find(names, name) >= 0 ==> names[find(names, name)] == name,
        find(names, name) == -1 ==> forall|k: int| 0 <= k < names.len() ==> names[k] != name,
    decreases names.len(),
{
    if names.len() > 0 && names.last() != name {
        lemma_find_bound(names.drop_last(), name);
        if find(names, name) == -1 {
            assert forall|k: int| 0 <= k < names.len() implies names[k] != name by {
                if k < names.len() - 1 {
                    assert(names.drop_last()[k] == names[k]);
                }
            }
        }
    }
}

/// Predefined addresses lie below 32768.
pub proof fn lemma_predefined_bound(s: Seq<char>)
    ensures
        predefined(s) matches Some(a) ==> a <= 0x6000,
{
    if s.len() == 2 && s[0] == 'R' && is_digit(s[1]) {
        assert(digit_value(s[1]) <= 9);
    } else if s.len() == 3 && s[0] == 'R' && s[1] == '1' && '0' <= s[2] && s[2] <= '5' {
        assert(digit_value(s[2]) <= 5);
    }
}

/// Looks up the address of a predefined symbol.
pub fn predefined_address(s: &str) -> (r: Option<u16>)
    ensures
        r == predefined(s@),
{
    let n = s.unicode_len();
    if n == 2 {
        let c0 = s.get_char(0);
        let c1 = s.get_char(1);
        if c0 == 'R' && '0' <= c1 && c1 <= '9' {
            Some((c1 as u32 - '0' as u32) as u16)
        } else if c0 == 'S' && c1 == 'P' {
            Some(0)
        } else {
            None
        }
    } else if n == 3 {
        let c0 = s.get_char(0);
        let c1 = s.get_char(1);
        let c2 = s.get_char(2);
        if c0 == 'R' && c1 == '1' && '0' <= c2 && c2 <= '5' {
            Some((10 + (c2 as u32 - '0' as u32)) as u16)
        } else {
            match (c0, c1, c2) {
                ('L', 'C', 'L') => Some(1),
                ('A', 'R', 'G') => Some(2),
                ('K', 'B', 'D') => Some(0x6000),
                _ => None,
            }
        }
    } else if n == 4 {
        match (s.get_char(0), s.get_char(1), s.get_char(2), s.get_char(3)) {
            ('T', 'H', 'I', 'S') => Some(3),
            ('T', 'H', 'A', 'T') => Some(4),
            _ => None,
        }
    } else if n == 6 && s.get_char(0) == 'S' && s.get_char(1) == 'C' && s.get_char(2) == 'R'
        && s.get_char(3) == 'E' && s.get_char(4) == 'E' && s.get_char(5) == 'N' {
        Some(0x4000)
    } else {
        None
    }
}

/// Reads a decimal numeral; its value is capped at 32768, one past the
/// largest 15-bit address.
pub fn numeral(s: &str) -> (r: Option<u32>)
    ensures
        r is Some <==> is_numeral(s@),
        r matches Some(v) ==> v == if numeral_value(s@) < 32768 {
            numeral_value(s@)
        } else {
            32768
        },
{
    let n = s.unicode_len();
    if n == 0 {
        return None;
    }
    let mut v: u32 = 0;
    let mut i: usize = 0;
    while i < n
        invariant
            n == s@.len(),
            i <= n,
            forall|j: int| 0 <= j < i ==> is_digit(#[trigger] s@[j]),
            v == if numeral_value(s@.subrange(0, i as int)) < 32768 {
                numeral_value(s@.subrange(0, i as int))
            } else {
                32768
            },
        decreases n - i,
    {
        let c = s.get_char(i);
        if !('0' <= c && c <= '9') {
            return None;
        }
        let ghost pre = s@.subrange(0, i as int);
        assert(s@.subrange(0, i + 1).drop_last() =~= pre);
        let d = c as u32 - '0' as u32;
        if v < 32768 {
            v = v * 10 + d;
            if v > 32768 {
                v = 32768;
            }
        }
        i = i + 1;
    }
    assert(s@.subrange(0, n as int) =~= s@);
    Some(v)
}

/// Finds the last position that holds `name`.
pub fn find_name(names: &Vec<String>, name: &String) -> (r: Option<usize>)
    ensures
        match r {
            Some(k) => k < names@.len() && find(views(names@), name@) == k,
            None => find(views(names@), name@) == -1,
        },
{
    let mut i: usize = names.len();
    assert(views(names@).subrange(0, i as int) =~= views(names@));
    while i > 0
        invariant
            i <= names@.len(),
            find(views(names@), name@) == find(views(names@).subrange(0, i as int), name@),
        decreases i,
    {
        let ghost pre = views(names@).subrange(0, i as int);
        assert(pre.drop_last() =~= views(names@).subrange(0, i - 1));
        if names[i - 1] == *name {
            return Some(i - 1);
        }
        i = i - 1;
    }
    None
}

} // verus!
