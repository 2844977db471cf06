use vstd::prelude::*;

verus! {

/// The whitespace characters that trimming removes from the ends of a
/// candidate description.
pub open spec fn is_blank(c: char) -> bool {
    c == ' ' || c == '\t' || c == '\n' || c == '\r' || c == '\u{000C}'
}

/// `s` with its leading blank characters removed.
pub open spec fn trim_front(s: Seq<char>) -> Seq<char>
    decreases s.len(),
{
    if s.len() > 0 && is_blank(s[0]) {
        trim_front(s.subrange(1, s.len() as int))
    } else {
        s
    }
}

/// `s` with its trailing blank characters removed.
pub open spec fn trim_back(s: Seq<char>) -> Seq<char>
    decreases s.len(),
{
    if s.len() > 0 && is_blank(s[s.len() - 1]) {
        trim_back(s.subrange(0, s.len() - 1))
    } else {
        s
    }
}

/// `s` with blank characters removed from both ends.
pub open spec fn trim_spec(s: Seq<char>) -> Seq<char> {
    trim_back(trim_front(s))
}

fn is_blank_char(c: char) -> (r: bool)
    ensures
        r == is_blank(c),
{
    c == ' ' || c == '\t' || c == '\n' || c == '\r' || c == '\u{000C}'
}

/// A copy of `s` with blank characters removed from both ends.
pub fn trimmed(s: &str) -> (r: String)
    ensures
        r@ == trim_spec(s@),
{
    let n = s.unicode_len();
    proof {
        assert(s@.subrange(0, n as int) =~= s@);
    }
    let mut start: usize = 0;
    while start < n && is_blank_char(s.get_char(start))
        invariant
            n == s@.len(),
            0 <= start <= n,
            trim_front(s@) == trim_front(s@.subrange(start as int, n as int)),
        decreases n - start,
    {
        proof {
            let t = s@.subrange(start as int, n as int);
            assert(t[0] == s@[start as int]);
            assert(t.subrange(1, t.len() as int) =~= s@.subrange(start as int + 1, n as int));
        }
        start = start + 1;
    }
    proof {
        assert(trim_front(s@) =~= s@.subrange(start as int, n as int));
    }
    let mut end: usize = n;
    while end > start && is_blank_char(s.get_char(end - 1))
        invariant
            n == s@.len(),
            0 <= start <= end <= n,
            trim_front(s@) == s@.subrange(start as int, n as int),
            trim_back(s@.subrange(start as int, n as int)) == trim_back(
                s@.subrange(start as int, end as int),
            ),
        decreases end,
    {
        proof {
            let t = s@.subrange(start as int, end as int);
            assert(t[t.len() - 1] == s@[end - 1]);
            assert(t.subrange(0, t.len() - 1) =~= s@.subrange(start as int, end as int - 1));
        }
        end = end - 1;
    }
    proof {
        assert(trim_back(s@.subrange(start as int, end as int)) =~= s@.subrange(
            start as int,
            end as int,
        ));
    }
    s.substring_char(start, end).to_owned()
}

} // verus!
