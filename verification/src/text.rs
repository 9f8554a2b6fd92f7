//! Character-level helpers: decimal rendering of numbers, whitespace
//! trimming, prefix and substring tests, and ASCII case folding. These are
//! the primitives the configuration and process modules state their
//! contracts over.

use vstd::prelude::*;

verus! {

use vstd::string::StrSliceExecFns;
use vstd::string::StringExecFns;

/// The decimal digit character for `d` in `[0, 9]`.
pub open spec fn dec_digit(d: int) -> char {
    if d == 0 {
        '0'
    } else if d == 1 {
        '1'
    } else if d == 2 {
        '2'
    } else if d == 3 {
        '3'
    } else if d == 4 {
        '4'
    } else if d == 5 {
        '5'
    } else if d == 6 {
        '6'
    } else if d == 7 {
        '7'
    } else if d == 8 {
        '8'
    } else {
        '9'
    }
}

/// The decimal rendering of a non-negative integer, without sign or padding.
pub open spec fn dec_str(n: int) -> Seq<char>
    decreases n,
{
    if n < 10 {
        seq![dec_digit(n)]
    } else {
        dec_str(n / 10).push(dec_digit(n % 10))
    }
}

fn push_dec(n: u16, out: &mut String)
    ensures
        final(out)@ == old(out)@ + dec_str(n as int),
    decreases n,
{
    if n >= 10 {
        push_dec(n / 10, out);
    }
    let d: u16 = n % 10;
    let ds: &str = if d == 0 {
        "0"
    } else if d == 1 {
        "1"
    } else if d == 2 {
        "2"
    } else if d == 3 {
        "3"
    } else if d == 4 {
        "4"
    } else if d == 5 {
        "5"
    } else if d == 6 {
        "6"
    } else if d == 7 {
        "7"
    } else if d == 8 {
        "8"
    } else {
        "9"
    };
    proof {
        reveal_strlit("0");
        reveal_strlit("1");
        reveal_strlit("2");
        reveal_strlit("3");
        reveal_strlit("4");
        reveal_strlit("5");
        reveal_strlit("6");
        reveal_strlit("7");
        reveal_strlit("8");
        reveal_strlit("9");
        assert(ds@ =~= seq![dec_digit(d as int)]);
    }
    out.append(ds);
    proof {
        assert(final(out)@ =~= old(out)@ + dec_str(n as int));
    }
}

/// Renders `n` in decimal.
pub fn u16_to_string(n: u16) -> (r: String)
    ensures
        r@ == dec_str(n as int),
{
    let mut s = String::new();
    push_dec(n, &mut s);
    proof {
        assert(s@ =~= dec_str(n as int));
    }
    s
}

/// Character-for-character string equality.
pub fn str_eq(a: &str, b: &str) -> (r: bool)
    ensures
        r == (a@ == b@),
{
    let alen: usize = a.unicode_len();
    let blen: usize = b.unicode_len();
    if alen != blen {
        return false;
    }
    let mut i: usize = 0;
    while i < alen
        invariant
            alen == a@.len(),
            blen == b@.len(),
            alen == blen,
            i <= alen,
            forall|k: int| 0 <= k < i ==> a@[k] == b@[k],
        decreases alen - i,
    {
        if a.get_char(i) != b.get_char(i) {
            return false;
        }
        i += 1;
    }
    proof {
        assert(a@ =~= b@);
    }
    true
}

/// `p` is a prefix of `s`.
pub open spec fn starts_with(s: Seq<char>, p: Seq<char>) -> bool {
    p.len() <= s.len() && s.subrange(0, p.len() as int) == p
}

/// Whether `s` begins with `p`.
pub fn starts_with_str(s: &str, p: &str) -> (r: bool)
    ensures
        r == starts_with(s@, p@),
{
    let slen: usize = s.unicode_len();
    let plen: usize = p.unicode_len();
    if plen > slen {
        return false;
    }
    let mut i: usize = 0;
    while i < plen
        invariant
            slen == s@.len(),
            plen == p@.len(),
            plen <= slen,
            i <= plen,
            forall|k: int| 0 <= k < i ==> s@[k] == p@[k],
        decreases plen - i,
    {
        if s.get_char(i) != p.get_char(i) {
            proof {
                assert(s@.subrange(0, p@.len() as int)[i as int] != p@[i as int]);
            }
            return false;
        }
        i += 1;
    }
    proof {
        assert(s@.subrange(0, p@.len() as int) =~= p@);
    }
    true
}

/// ASCII case folding of one character; other characters are unchanged.
pub open spec fn lower_char(c: char) -> char {
    if 'A' <= c && c <= 'Z' {
        (((c as u8) + 32) as char)
    } else {
        c
    }
}

/// ASCII case folding of a character sequence.
pub open spec fn lower_seq(s: Seq<char>) -> Seq<char> {
    s.map_values(|c: char| lower_char(c))
}

fn lower_char_exec(c: char) -> (r: char)
    ensures
        r == lower_char(c),
{
    if 'A' <= c && c <= 'Z' {
        ((c as u8) + 32) as char
    } else {
        c
    }
}

/// `p` occurs in `s` starting at index `i`.
pub open spec fn contains_at(s: Seq<char>, p: Seq<char>, i: int) -> bool {
    0 <= i && i + p.len() <= s.len() && s.subrange(i, i + p.len()) == p
}

/// `p` occurs somewhere in `s`.
pub open spec fn contains_seq(s: Seq<char>, p: Seq<char>) -> bool {
    exists|i: int| contains_at(s, p, i)
}

/// Whether the ASCII-case-folded form of `s` contains `p` as a substring.
/// `p` is expected to be given already folded (the callers pass fixed
/// lower-case needles).
pub fn contains_lower(s: &str, p: &str) -> (r: bool)
    ensures
        r == contains_seq(lower_seq(s@), p@),
{
    let slen: usize = s.unicode_len();
    let plen: usize = p.unicode_len();
    if plen > slen {
        proof {
            assert(lower_seq(s@).len() == s@.len());
            assert(forall|i: int| !#[trigger] contains_at(lower_seq(s@), p@, i));
        }
        return false;
    }
    let mut i: usize = 0;
    while i <= slen - plen
        invariant
            slen == s@.len(),
            plen == p@.len(),
            plen <= slen,
            i <= slen - plen + 1,
            forall|ii: int| 0 <= ii < i ==> !contains_at(lower_seq(s@), p@, ii),
        decreases slen - plen + 1 - i,
    {
        let mut j: usize = 0;
        let mut matches: bool = true;
        while j < plen
            invariant
                slen == s@.len(),
                plen == p@.len(),
                plen <= slen,
                i + plen <= slen,
                j <= plen,
                matches ==> forall|k: int| 0 <= k < j ==> lower_seq(s@)[i + k] == p@[k],
                !matches ==> exists|k: int| 0 <= k < plen && lower_seq(s@)[i + k] != p@[k],
            decreases plen - j,
        {
            let sc = lower_char_exec(s.get_char(i + j));
            let pc = p.get_char(j);
            if sc != pc {
                matches = false;
                proof {
                    assert(lower_seq(s@)[i + j] != p@[j as int]);
                }
                j = plen;
            } else {
                j += 1;
            }
        }
        if matches {
            proof {
                assert(lower_seq(s@).subrange(i as int, i + p@.len()) =~= p@);
                assert(contains_at(lower_seq(s@), p@, i as int));
            }
            return true;
        }
        proof {
            assert(!contains_at(lower_seq(s@), p@, i as int)) by {
                let k = choose|k: int| 0 <= k < plen && lower_seq(s@)[i + k] != p@[k];
                assert(lower_seq(s@).subrange(i as int, i + p@.len())[k] == lower_seq(s@)[i + k]);
            }
        }
        i += 1;
    }
    proof {
        assert(lower_seq(s@).len() == s@.len());
        assert(forall|ii: int| !#[trigger] contains_at(lower_seq(s@), p@, ii));
    }
    false
}

/// ASCII whitespace, the only whitespace these line-oriented files carry.
pub open spec fn is_ws(c: char) -> bool {
    c == ' ' || c == '\t' || c == '\r' || c == '\n'
}

/// `s` without its leading whitespace.
pub open spec fn trim_front(s: Seq<char>) -> Seq<char>
    decreases s.len(),
{
    if s.len() > 0 && is_ws(s[0]) {
        trim_front(s.drop_first())
    } else {
        s
    }
}

/// `s` without its trailing whitespace.
pub open spec fn trim_back(s: Seq<char>) -> Seq<char>
    decreases s.len(),
{
    if s.len() > 0 && is_ws(s.last()) {
        trim_back(s.drop_last())
    } else {
        s
    }
}

/// `s` without leading and trailing whitespace.
pub open spec fn trim_spec(s: Seq<char>) -> Seq<char> {
    trim_back(trim_front(s))
}

pub proof fn lemma_trim_front_idx(s: Seq<char>, i: int)
    requires
        0 <= i <= s.len(),
        forall|k: int| 0 <= k < i ==> is_ws(s[k]),
        i == s.len() || !is_ws(s[i]),
    ensures
        trim_front(s) =~= s.subrange(i, s.len() as int),
    decreases i,
{
    if i == 0 {
        assert(trim_front(s) =~= s.subrange(0, s.len() as int));
    } else {
        lemma_trim_front_idx(s.drop_first(), i - 1);
        assert(s.drop_first().subrange(i - 1, s.drop_first().len() as int) =~= s.subrange(
            i,
            s.len() as int,
        ));
    }
}

pub proof fn lemma_trim_back_idx(s: Seq<char>, j: int)
    requires
        0 <= j <= s.len(),
        forall|k: int| j <= k < s.len() ==> is_ws(s[k]),
        j == 0 || !is_ws(s[j - 1]),
    ensures
        trim_back(s) =~= s.subrange(0, j),
    decreases s.len() - j,
{
    if j == s.len() {
        if s.len() > 0 && is_ws(s.last()) {
            assert(!is_ws(s[j - 1]));
            assert(false);
        }
        assert(trim_back(s) =~= s.subrange(0, j));
    } else {
        lemma_trim_back_idx(s.drop_last(), j);
        assert(s.drop_last().subrange(0, j) =~= s.subrange(0, j));
    }
}

fn is_ws_exec(c: char) -> (r: bool)
    ensures
        r == is_ws(c),
{
    c == ' ' || c == '\t' || c == '\r' || c == '\n'
}

/// `s` with ASCII whitespace removed from both ends.
pub fn trim_of<'a>(s: &'a str) -> (r: &'a str)
    ensures
        r@ == trim_spec(s@),
{
    let len: usize = s.unicode_len();
    let mut i: usize = 0;
    while i < len
        invariant
            len == s@.len(),
            i <= len,
            forall|k: int| 0 <= k < i ==> is_ws(s@[k]),
        ensures
            i <= len,
            forall|k: int| 0 <= k < i ==> is_ws(s@[k]),
            i == len || !is_ws(s@[i as int]),
        decreases len - i,
    {
        if !is_ws_exec(s.get_char(i)) {
            break;
        }
        i += 1;
    }
    let mut j: usize = len;
    while j > i
        invariant
            len == s@.len(),
            i <= j <= len,
            forall|k: int| j <= k < len ==> is_ws(s@[k]),
        ensures
            i <= j <= len,
            forall|k: int| j <= k < len ==> is_ws(s@[k]),
            j == i || !is_ws(s@[j - 1]),
        decreases j,
    {
        if !is_ws_exec(s.get_char(j - 1)) {
            break;
        }
        j -= 1;
    }
    proof {
        lemma_trim_front_idx(s@, i as int);
        let t = s@.subrange(i as int, s@.len() as int);
        if j == i && i > 0 && i < len {
            assert(!is_ws(s@[i as int]));
        }
        lemma_trim_back_idx(t, j - i);
        assert(t.subrange(0, j - i) =~= s@.subrange(i as int, j as int));
    }
    s.substring_char(i, j)
}

} // verus!
