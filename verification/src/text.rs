//! Small pieces of replacement text.
use vstd::prelude::*;

verus! {

/// `n` spaces.
pub open spec fn spaces(n: nat) -> Seq<char> {
    Seq::new(n, |_i: int| ' ')
}

/// A string of `n` spaces.
pub fn repeat_space(n: usize) -> (s: String)
    ensures
        s@ == spaces(n as nat),
{
    let mut s = String::new();
    let mut i: usize = 0;
    proof {
        reveal_strlit(" ");
    }
    while i < n
        invariant
            i <= n,
            s@ == spaces(i as nat),
            " "@ == seq![' '],
        decreases n - i,
    {
        s.append(" ");
        assert(s@ =~= spaces((i + 1) as nat));
        i = i + 1;
    }
    s
}

/// A line break followed by `n` spaces.
pub fn newline_indent(n: usize) -> (s: String)
    ensures
        s@ == seq!['\n'] + spaces(n as nat),
{
    let mut s = String::from_str("\n");
    proof {
        reveal_strlit("\n");
    }
    let pad = repeat_space(n);
    s.append(pad.as_str());
    s
}

/// A single space.
pub fn one_space() -> (s: String)
    ensures
        s@ == seq![' '],
{
    proof {
        reveal_strlit(" ");
    }
    String::from_str(" ")
}

/// A single quote character.
pub fn single_quote() -> (s: String)
    ensures
        s@ == seq!['\''],
{
    proof {
        reveal_strlit("'");
    }
    String::from_str("'")
}

} // verus!
