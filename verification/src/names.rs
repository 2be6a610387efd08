use vstd::prelude::*;

use crate::chars::{chars_of, string_of};

verus! {

/// The part of `s` before its first `-`; all of `s` where it has none.
pub open spec fn name_base(s: Seq<char>) -> Seq<char>
    decreases s.len(),
{
    if s.len() == 0 || s[0] == '-' {
        seq![]
    } else {
        seq![s[0]] + name_base(s.drop_first())
    }
}

/// Removing the suffix that the panel adds to a user's name (`name-inbound`).
pub trait TrimNameSuffix {
    /// The name without its `-suffix`: the part before the first `-`.
    fn trim_name_suffix(&self) -> String;
}

/// The index of the first `-` in `chars`, or its length.
fn first_dash(chars: &Vec<char>) -> (res: usize)
    ensures
        res <= chars.len(),
        chars@.take(res as int) == name_base(chars@),
{
    let mut i: usize = 0;
    assert(chars@.skip(0) =~= chars@);
    assert(chars@.take(0) + name_base(chars@) =~= name_base(chars@));
    while i < chars.len() && chars[i] != '-'
        invariant
            i <= chars.len(),
            name_base(chars@) == chars@.take(i as int) + name_base(chars@.skip(i as int)),
        decreases chars.len() - i,
    {
        let ghost rest = chars@.skip(i as int);
        assert(rest.drop_first() =~= chars@.skip(i + 1));
        assert(chars@.take(i + 1) =~= chars@.take(i as int) + seq![chars@[i as int]]);
        i = i + 1;
    }
    if i < chars.len() {
        assert(chars@.skip(i as int)[0] == '-');
    }
    assert(name_base(chars@.skip(i as int)) =~= Seq::<char>::empty());
    assert(chars@.take(i as int) + Seq::<char>::empty() =~= chars@.take(i as int));
    i
}

impl TrimNameSuffix for str {
    fn trim_name_suffix(&self) -> (res: String)
        ensures
            res@ == name_base(self@),
    {
        let chars = chars_of(self);
        let end = first_dash(&chars);
        string_of(&chars, 0, end)
    }
}

proof fn lemma_name_base_parts(s: Seq<char>)
    ensures
        name_base(s).len() <= s.len(),
        s.take(name_base(s).len() as int) == name_base(s),
        !name_base(s).contains('-'),
    decreases s.len(),
{
    if s.len() > 0 && s[0] != '-' {
        let t = s.drop_first();
        lemma_name_base_parts(t);
        assert(s.take(name_base(s).len() as int) =~= seq![s[0]] + t.take(name_base(t).len() as int));
        let b = name_base(s);
        assert forall|i: int| 0 <= i < b.len() implies b[i] != '-' by {
            if i > 0 {
                assert(b[i] == name_base(t)[i - 1]);
            }
        }
    } else {
        assert(s.take(0) =~= Seq::<char>::empty());
    }
}

proof fn lemma_name_base_fixed(s: Seq<char>)
    requires
        !s.contains('-'),
    ensures
        name_base(s) == s,
    decreases s.len(),
{
    if s.len() > 0 {
        assert(s[0] != '-');
        assert forall|i: int| 0 <= i < s.drop_first().len() implies s.drop_first()[i] != '-' by {
            assert(s.drop_first()[i] == s[i + 1]);
        }
        lemma_name_base_fixed(s.drop_first());
        assert(s =~= seq![s[0]] + s.drop_first());
    }
}

/// The base of a name is a prefix of it without any `-`, so trimming a trimmed name changes
/// nothing.
pub proof fn lemma_trim_name_suffix_idempotent(s: Seq<char>)
    ensures
        s.take(name_base(s).len() as int) == name_base(s),
        !name_base(s).contains('-'),
        name_base(name_base(s)) == name_base(s),
{
    lemma_name_base_parts(s);
    lemma_name_base_fixed(name_base(s));
}

} // verus!
