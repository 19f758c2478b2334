//! Whitespace trimming used to normalize dictionary keys and queries.
//!
//! Keys and cell values are trimmed of leading and trailing whitespace
//! (the Unicode `White_Space` characters) before they enter a mapping set,
//! and exact lookup applies the same normalization to its query.
use vstd::prelude::*;

verus! {

use vstd::string::StrSliceExecFns;
use vstd::string::StringExecFns;

/// Whether `c` is a Unicode `White_Space` character.
pub open spec fn spec_is_space(c: char) -> bool {
    ||| c == ' '
    ||| c == '\t'
    ||| c == '\n'
    ||| c == '\r'
    ||| c == '\u{000B}'
    ||| c == '\u{000C}'
    ||| c == '\u{0085}'
    ||| c == '\u{00A0}'
    ||| c == '\u{1680}'
    ||| c == '\u{2000}'
    ||| c == '\u{2001}'
    ||| c == '\u{2002}'
    ||| c == '\u{2003}'
    ||| c == '\u{2004}'
    ||| c == '\u{2005}'
    ||| c == '\u{2006}'
    ||| c == '\u{2007}'
    ||| c == '\u{2008}'
    ||| c == '\u{2009}'
    ||| c == '\u{200A}'
    ||| c == '\u{2028}'
    ||| c == '\u{2029}'
    ||| c == '\u{202F}'
    ||| c == '\u{205F}'
    ||| c == '\u{3000}'
}

/// Whether `c` is a Unicode `White_Space` character.
pub fn is_space(c: char) -> (r: bool)
    ensures
        r == spec_is_space(c),
{
    c == ' ' || c == '\t' || c == '\n' || c == '\r' || c == '\u{000B}' || c == '\u{000C}'
        || c == '\u{0085}' || c == '\u{00A0}' || c == '\u{1680}' || c == '\u{2000}'
        || c == '\u{2001}' || c == '\u{2002}' || c == '\u{2003}' || c == '\u{2004}'
        || c == '\u{2005}' || c == '\u{2006}' || c == '\u{2007}' || c == '\u{2008}'
        || c == '\u{2009}' || c == '\u{200A}' || c == '\u{2028}' || c == '\u{2029}'
        || c == '\u{202F}' || c == '\u{205F}' || c == '\u{3000}'
}

/// `s` without its longest whitespace prefix.
pub open spec fn trim_front(s: Seq<char>) -> Seq<char>
    decreases s.len(),
{
    if s.len() == 0 {
        s
    } else if spec_is_space(s[0]) {
        trim_front(s.drop_first())
    } else {
        s
    }
}

/// `s` without its longest whitespace suffix.
pub open spec fn trim_back(s: Seq<char>) -> Seq<char>
    decreases s.len(),
{
    if s.len() == 0 {
        s
    } else if spec_is_space(s.last()) {
        trim_back(s.drop_last())
    } else {
        s
    }
}

/// `s` without leading and trailing whitespace.
pub open spec fn spec_trim(s: Seq<char>) -> Seq<char> {
    trim_back(trim_front(s))
}

proof fn lemma_trim_front_subrange(s: Seq<char>, i: int)
    requires
        0 <= i <= s.len(),
        forall|k: int| 0 <= k < i ==> spec_is_space(s[k]),
        i < s.len() ==> !spec_is_space(s[i]),
    ensures
        trim_front(s) == s.subrange(i, s.len() as int),
    decreases i,
{
    if i == 0 {
        assert(trim_front(s) == s.subrange(0, s.len() as int)) by {
            if s.len() == 0 {
                assert(s.subrange(0, s.len() as int) =~= s);
            } else {
                assert(!spec_is_space(s[0]));
                assert(s.subrange(0, s.len() as int) =~= s);
            }
        }
    } else {
        assert(spec_is_space(s[0]));
        let t = s.drop_first();
        assert(forall|k: int| 0 <= k < i - 1 ==> spec_is_space(t[k]));
        lemma_trim_front_subrange(t, i - 1);
        assert(t.subrange(i - 1, t.len() as int) =~= s.subrange(i, s.len() as int));
    }
}

proof fn lemma_trim_back_subrange(s: Seq<char>, j: int)
    requires
        0 <= j <= s.len(),
        forall|k: int| j <= k < s.len() ==> spec_is_space(s[k]),
        j > 0 ==> !spec_is_space(s[j - 1]),
    ensures
        trim_back(s) == s.subrange(0, j),
    decreases s.len() - j,
{
    if j == s.len() {
        assert(trim_back(s) == s.subrange(0, j)) by {
            if s.len() == 0 {
                assert(s.subrange(0, 0) =~= s);
            } else {
                assert(!spec_is_space(s.last()));
                assert(s.subrange(0, s.len() as int) =~= s);
            }
        }
    } else {
        assert(spec_is_space(s.last()));
        let t = s.drop_last();
        assert(forall|k: int| j <= k < t.len() ==> t[k] == s[k]);
        lemma_trim_back_subrange(t, j);
        assert(t.subrange(0, j) =~= s.subrange(0, j));
    }
}

/// Leading and trailing whitespace removed from `s`.
pub fn trim_str(s: &str) -> (r: String)
    ensures
        r@ == spec_trim(s@),
{
    let n = s.unicode_len();
    let mut start: usize = 0;
    while start < n && is_space(s.get_char(start))
        invariant
            n == s@.len(),
            0 <= start <= n,
            forall|k: int| 0 <= k < start ==> spec_is_space(s@[k]),
        decreases n - start,
    {
        start = start + 1;
    }
    let mut end: usize = n;
    while end > start && is_space(s.get_char(end - 1))
        invariant
            n == s@.len(),
            start <= end <= n,
            forall|k: int| end <= k < n ==> spec_is_space(s@[k]),
        decreases end,
    {
        end = end - 1;
    }
    proof {
        lemma_trim_front_subrange(s@, start as int);
        let u = s@.subrange(start as int, n as int);
        assert(forall|k: int| end - start <= k < u.len() ==> spec_is_space(u[k]));
        lemma_trim_back_subrange(u, end - start);
        assert(u.subrange(0, end - start) =~= s@.subrange(start as int, end as int));
    }
    String::from_str(s.substring_char(start, end))
}

/// The decimal digit character for `d` (`0 <= d < 10`).
pub open spec fn spec_digit(d: int) -> char {
    "0123456789"@[d]
}

/// The decimal rendering of `n >= 0`, most significant digit first.
pub open spec fn spec_dec(n: int) -> Seq<char>
    recommends
        n >= 0,
    decreases n,
{
    if n < 10 {
        seq![spec_digit(n)]
    } else {
        spec_dec(n / 10).push(spec_digit(n % 10))
    }
}

/// `n` rendered in decimal.
pub fn usize_to_string(n: usize) -> (r: String)
    ensures
        r@ == spec_dec(n as int),
    decreases n,
{
    let digits = "0123456789";
    proof {
        reveal_strlit("0123456789");
    }
    if n < 10 {
        let d = digits.substring_char(n, n + 1);
        proof {
            assert(d@ =~= seq![spec_digit(n as int)]);
        }
        String::from_str(d)
    } else {
        let mut r = usize_to_string(n / 10);
        let d = n % 10;
        let tail = digits.substring_char(d, d + 1);
        proof {
            assert(tail@ =~= seq![spec_digit(d as int)]);
        }
        r.append(tail);
        proof {
            assert(r@ =~= spec_dec((n / 10) as int).push(spec_digit((n % 10) as int)));
        }
        r
    }
}

} // verus!
