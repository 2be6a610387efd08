use vstd::prelude::*;

verus! {

/// Appends one character to a string (`String::push`).
#[verifier::external_body]
pub(crate) fn push_char(s: &mut String, c: char)
    ensures
        final(s)@ == old(s)@.push(c),
{
    s.push(c);
}

/// The views of a sequence of strings.
pub open spec fn views(v: Seq<String>) -> Seq<Seq<char>> {
    v.map_values(|x: String| x@)
}

/// The characters of `s`, in order.
pub fn chars_of(s: &str) -> (res: Vec<char>)
    ensures
        res@ == s@,
{
    let mut res: Vec<char> = Vec::new();
    for c in it: s.chars()
        invariant
            res@ == it.seq().take(it.index() as int),
            it.seq() == s@,
    {
        res.push(c);
    }
    res
}

/// The string made of the characters `chars[lo..hi]`.
pub fn string_of(chars: &Vec<char>, lo: usize, hi: usize) -> (res: String)
    requires
        lo <= hi <= chars.len(),
    ensures
        res@ == chars@.subrange(lo as int, hi as int),
{
    let mut res = String::new();
    let mut i = lo;
    while i < hi
        invariant
            lo <= i <= hi <= chars.len(),
            res@ == chars@.subrange(lo as int, i as int),
        decreases hi - i,
    {
        push_char(&mut res, chars[i]);
        i = i + 1;
        assert(res@ =~= chars@.subrange(lo as int, i as int));
    }
    res
}

/// Unicode's `White_Space` property, which `char::is_whitespace` tests.
pub open spec fn is_white_space(c: char) -> bool {
    let u = c as u32;
    ||| 0x9 <= u <= 0xD
    ||| u == 0x20
    ||| u == 0x85
    ||| u == 0xA0
    ||| u == 0x1680
    ||| 0x2000 <= u <= 0x200A
    ||| u == 0x2028
    ||| u == 0x2029
    ||| u == 0x202F
    ||| u == 0x205F
    ||| u == 0x3000
}

/// Whether `c` is white space.
pub fn is_whitespace(c: char) -> (res: bool)
    ensures
        res == is_white_space(c),
{
    let u = c as u32;
    (0x9 <= u && u <= 0xD) || u == 0x20 || u == 0x85 || u == 0xA0 || u == 0x1680 || (0x2000
        <= u && u <= 0x200A) || u == 0x2028 || u == 0x2029 || u == 0x202F || u == 0x205F || u
        == 0x3000
}

/// `s` without its leading white space.
pub open spec fn trim_start(s: Seq<char>) -> Seq<char>
    decreases s.len(),
{
    if s.len() > 0 && is_white_space(s[0]) {
        trim_start(s.drop_first())
    } else {
        s
    }
}

/// `s` without its trailing white space.
pub open spec fn trim_end(s: Seq<char>) -> Seq<char>
    decreases s.len(),
{
    if s.len() > 0 && is_white_space(s.last()) {
        trim_end(s.drop_last())
    } else {
        s
    }
}

/// `s` without leading and trailing white space, as `str::trim` gives it.
pub open spec fn trimmed(s: Seq<char>) -> Seq<char> {
    trim_end(trim_start(s))
}

/// The bounds `(lo, hi)` of `s` trimmed: `s[lo..hi] == trimmed(s)`.
pub fn trim_bounds(chars: &Vec<char>) -> (res: (usize, usize))
    ensures
        res.0 <= res.1 <= chars.len(),
        chars@.subrange(res.0 as int, res.1 as int) == trimmed(chars@),
{
    let n = chars.len();
    let mut i: usize = 0;
    assert(chars@.skip(0) =~= chars@);
    while i < n && is_whitespace(chars[i])
        invariant
            i <= n == chars.len(),
            trim_start(chars@) == trim_start(chars@.skip(i as int)),
        decreases n - i,
    {
        assert(chars@.skip(i as int).drop_first() =~= chars@.skip(i + 1));
        i = i + 1;
    }
    assert(trim_start(chars@) == chars@.subrange(i as int, n as int)) by {
        assert(chars@.skip(i as int) =~= chars@.subrange(i as int, n as int));
    }
    let mut j: usize = n;
    while j > i && is_whitespace(chars[j - 1])
        invariant
            i <= j <= n == chars.len(),
            trimmed(chars@) == trim_end(chars@.subrange(i as int, j as int)),
        decreases j,
    {
        assert(chars@.subrange(i as int, j as int).drop_last() =~= chars@.subrange(
            i as int,
            j - 1,
        ));
        j = j - 1;
    }
    (i, j)
}

/// Whether every character of `s` is white space.
pub open spec fn all_white(s: Seq<char>) -> bool {
    forall|i: int| 0 <= i < s.len() ==> is_white_space(#[trigger] s[i])
}

/// Leading white space is dropped by `trim_start`.
proof fn lemma_trim_start_white_prefix(w: Seq<char>, s: Seq<char>)
    requires
        all_white(w),
    ensures
        trim_start(w + s) == trim_start(s),
    decreases w.len(),
{
    if w.len() > 0 {
        assert((w + s)[0] == w[0]);
        assert((w + s).drop_first() =~= w.drop_first() + s);
        assert(all_white(w.drop_first())) by {
            assert forall|i: int| 0 <= i < w.drop_first().len() implies is_white_space(
                #[trigger] w.drop_first()[i],
            ) by {
                assert(w.drop_first()[i] == w[i + 1]);
            }
        }
        lemma_trim_start_white_prefix(w.drop_first(), s);
    } else {
        assert(w + s =~= s);
    }
}

/// Trailing white space is dropped by `trim_end`.
proof fn lemma_trim_end_white_suffix(s: Seq<char>, w: Seq<char>)
    requires
        all_white(w),
    ensures
        trim_end(s + w) == trim_end(s),
    decreases w.len(),
{
    if w.len() > 0 {
        assert((s + w).last() == w.last());
        assert((s + w).drop_last() =~= s + w.drop_last());
        assert(all_white(w.drop_last())) by {
            assert forall|i: int| 0 <= i < w.drop_last().len() implies is_white_space(
                #[trigger] w.drop_last()[i],
            ) by {
                assert(w.drop_last()[i] == w[i]);
            }
        }
        lemma_trim_end_white_suffix(s, w.drop_last());
    } else {
        assert(s + w =~= s);
    }
}

/// White space after `s` does not change `s` trimmed.
proof fn lemma_trimmed_white_suffix(s: Seq<char>, w: Seq<char>)
    requires
        all_white(w),
    ensures
        trimmed(s + w) == trimmed(s),
    decreases s.len(),
{
    if s.len() == 0 {
        assert(s + w =~= w);
        lemma_trim_start_white_prefix(w, seq![]);
        assert(w + Seq::<char>::empty() =~= w);
    } else if is_white_space(s[0]) {
        assert((s + w)[0] == s[0]);
        assert((s + w).drop_first() =~= s.drop_first() + w);
        lemma_trimmed_white_suffix(s.drop_first(), w);
    } else {
        assert((s + w)[0] == s[0]);
        lemma_trim_end_white_suffix(s, w);
    }
}

/// `trim_start` leaves nothing, or something that starts with other than white space.
proof fn lemma_trim_start_shape(s: Seq<char>)
    ensures
        trim_start(s).len() == 0 || !is_white_space(trim_start(s)[0]),
    decreases s.len(),
{
    if s.len() > 0 && is_white_space(s[0]) {
        lemma_trim_start_shape(s.drop_first());
    }
}

/// `trim_end` leaves a prefix of `s` that is empty or ends with other than white space.
proof fn lemma_trim_end_shape(s: Seq<char>)
    ensures
        trim_end(s).len() <= s.len(),
        trim_end(s) == s.take(trim_end(s).len() as int),
        trim_end(s).len() == 0 || !is_white_space(trim_end(s).last()),
    decreases s.len(),
{
    if s.len() > 0 && is_white_space(s.last()) {
        lemma_trim_end_shape(s.drop_last());
        assert(s.drop_last().take(trim_end(s).len() as int) =~= s.take(trim_end(s).len() as int));
    } else {
        assert(s.take(s.len() as int) =~= s);
    }
}

/// Trimming a trimmed text changes nothing.
proof fn lemma_trimmed_idempotent(s: Seq<char>)
    ensures
        trimmed(trimmed(s)) == trimmed(s),
{
    let a = trim_start(s);
    let t = trim_end(a);
    lemma_trim_start_shape(s);
    lemma_trim_end_shape(a);
    if t.len() > 0 {
        assert(t[0] == a[0]);
        assert(trim_start(t) == t);
        assert(trim_end(t) == t);
    } else {
        assert(trim_start(t) == t);
    }
}

/// Trimming ignores white space around a text, and trimming twice is trimming once:
/// `(w1 + s + w2).trim() == s.trim() == s.trim().trim()` for white space `w1` and `w2`.
pub proof fn lemma_trim_ignores_surrounding_white(w1: Seq<char>, s: Seq<char>, w2: Seq<char>)
    requires
        all_white(w1),
        all_white(w2),
    ensures
        trimmed(w1 + s + w2) == trimmed(s),
        trimmed(trimmed(s)) == trimmed(s),
{
    lemma_trim_start_white_prefix(w1, s + w2);
    assert(w1 + s + w2 =~= w1 + (s + w2));
    lemma_trimmed_white_suffix(s, w2);
    lemma_trimmed_idempotent(s);
}

/// A text that starts and ends with other than white space is its own trimmed form.
pub proof fn lemma_trimmed_when_bare(s: Seq<char>)
    requires
        s.len() > 0,
        !is_white_space(s[0]),
        !is_white_space(s.last()),
    ensures
        trimmed(s) == s,
{
}

/// `s` without leading and trailing white space (`str::trim`).
pub fn trim(s: &str) -> (res: String)
    ensures
        res@ == trimmed(s@),
{
    let chars = chars_of(s);
    let (lo, hi) = trim_bounds(&chars);
    string_of(&chars, lo, hi)
}

/// Splits `s` into its maximal runs of non-white-space characters, left to right;
/// `cur` is the run read so far and `acc` the runs already closed.
pub open spec fn words_acc(s: Seq<char>, cur: Seq<char>, acc: Seq<Seq<char>>) -> Seq<Seq<char>>
    decreases s.len(),
{
    if s.len() == 0 {
        if cur.len() > 0 {
            acc.push(cur)
        } else {
            acc
        }
    } else if is_white_space(s[0]) {
        words_acc(s.drop_first(), seq![], if cur.len() > 0 { acc.push(cur) } else { acc })
    } else {
        words_acc(s.drop_first(), cur.push(s[0]), acc)
    }
}

/// The words of `s`, as `str::split_whitespace` yields them.
pub open spec fn words(s: Seq<char>) -> Seq<Seq<char>> {
    words_acc(s, seq![], seq![])
}

/// The words of `s` (`str::split_whitespace`).
pub fn split_words(s: &str) -> (res: Vec<String>)
    ensures
        views(res@) == words(s@),
{
    let chars = chars_of(s);
    let n = chars.len();
    let mut res: Vec<String> = Vec::new();
    let mut start: usize = 0;
    let mut i: usize = 0;
    assert(chars@.skip(0) =~= chars@);
    assert(chars@.subrange(0, 0) =~= Seq::<char>::empty());
    assert(views(res@) =~= Seq::<Seq<char>>::empty());
    while i < n
        invariant
            start <= i <= n == chars.len(),
            words(s@) == words_acc(
                chars@.skip(i as int),
                chars@.subrange(start as int, i as int),
                views(res@),
            ),
            chars@ == s@,
        decreases n - i,
    {
        let ghost cur = chars@.subrange(start as int, i as int);
        assert(chars@.skip(i as int).drop_first() =~= chars@.skip(i + 1));
        assert(chars@.skip(i as int)[0] == chars@[i as int]);
        if is_whitespace(chars[i]) {
            if start < i {
                let ghost prev = res@;
                let w = string_of(&chars, start, i);
                res.push(w);
                assert(views(res@) =~= views(prev).push(cur));
            }
            i = i + 1;
            start = i;
            assert(chars@.subrange(start as int, i as int) =~= Seq::<char>::empty());
        } else {
            assert(chars@.subrange(start as int, i + 1) =~= cur.push(chars@[i as int]));
            i = i + 1;
        }
    }
    assert(chars@.skip(i as int) =~= Seq::<char>::empty());
    if start < i {
        let ghost prev = res@;
        let w = string_of(&chars, start, i);
        res.push(w);
        assert(views(res@) =~= views(prev).push(chars@.subrange(start as int, i as int)));
    }
    res
}

} // verus!
