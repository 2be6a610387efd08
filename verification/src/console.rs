use vstd::prelude::*;

use crate::chars::{chars_of, string_of, views};

verus! {

/// Whether `s` starts with the placeholder `{}`.
pub open spec fn starts_with_placeholder(s: Seq<char>) -> bool {
    s.len() >= 2 && s[0] == '{' && s[1] == '}'
}

/// Cuts `s` at each `{}`, read from the left; `cur` is the piece read so far and `acc` the
/// pieces already closed.
pub open spec fn pieces_acc(s: Seq<char>, cur: Seq<char>, acc: Seq<Seq<char>>) -> Seq<Seq<char>>
    decreases s.len(),
{
    if s.len() == 0 {
        acc.push(cur)
    } else if starts_with_placeholder(s) {
        pieces_acc(s.skip(2), seq![], acc.push(cur))
    } else {
        pieces_acc(s.drop_first(), cur.push(s[0]), acc)
    }
}

/// The pieces of `s` between its `{}` placeholders, as `s.split("{}")` yields them.
pub open spec fn pieces(s: Seq<char>) -> Seq<Seq<char>> {
    pieces_acc(s, seq![], seq![])
}

/// The pieces of `s` between its `{}` placeholders (`s.split("{}")`).
pub fn split_placeholders(s: &str) -> (res: Vec<String>)
    ensures
        views(res@) == pieces(s@),
{
    let chars = chars_of(s);
    let n = chars.len();
    let mut res: Vec<String> = Vec::new();
    let mut start: usize = 0;
    let mut i: usize = 0;
    assert(chars@.skip(0) =~= chars@);
    assert(chars@.subrange(0, 0) =~= Seq::<char>::empty());
    assert(views(res@) =~= Seq::<Seq<char>>::empty());
    while i < n
        invariant
            start <= i <= n == chars.len(),
            pieces(s@) == pieces_acc(
                chars@.skip(i as int),
                chars@.subrange(start as int, i as int),
                views(res@),
            ),
            chars@ == s@,
        decreases n - i,
    {
        let ghost cur = chars@.subrange(start as int, i as int);
        let ghost rest = chars@.skip(i as int);
        assert(rest[0] == chars@[i as int]);
        if i + 1 < n && chars[i] == '{' && chars[i + 1] == '}' {
            assert(rest[1] == chars@[i + 1]);
            assert(starts_with_placeholder(rest));
            assert(rest.skip(2) =~= chars@.skip(i + 2));
            let ghost prev = res@;
            let piece = string_of(&chars, start, i);
            res.push(piece);
            assert(views(res@) =~= views(prev).push(cur));
            i = i + 2;
            start = i;
            assert(chars@.subrange(start as int, i as int) =~= Seq::<char>::empty());
        } else {
            assert(!starts_with_placeholder(rest));
            assert(rest.drop_first() =~= chars@.skip(i + 1));
            assert(chars@.subrange(start as int, i + 1) =~= cur.push(chars@[i as int]));
            i = i + 1;
        }
    }
    assert(chars@.skip(i as int) =~= Seq::<char>::empty());
    let ghost prev = res@;
    let piece = string_of(&chars, start, i);
    res.push(piece);
    assert(views(res@) =~= views(prev).push(chars@.subrange(start as int, i as int)));
    res
}

/// Bold green, for success messages.
pub open spec fn ok_style() -> Seq<char> {
    seq!['\x1b', '[', '1', 'm', '\x1b', '[', '3', '2', 'm']
}

/// Bold red, for error messages.
pub open spec fn err_style() -> Seq<char> {
    seq!['\x1b', '[', '1', 'm', '\x1b', '[', '3', '1', 'm']
}

/// Bold, for log messages.
pub open spec fn log_style() -> Seq<char> {
    seq!['\x1b', '[', '1', 'm']
}

/// Dim, for the values filled into a message.
pub open spec fn value_style() -> Seq<char> {
    seq!['\x1b', '[', '2', 'm']
}

/// Back to the terminal's plain style.
pub open spec fn reset_style() -> Seq<char> {
    seq!['\x1b', '[', '0', 'm']
}

/// The message made of `parts` (the `k`-th piece first), each in `style`, each followed by
/// the value of the same rank in `vars`, dimmed, where there is one.
pub open spec fn styled_parts(
    style: Seq<char>,
    parts: Seq<Seq<char>>,
    vars: Seq<Seq<char>>,
    k: int,
) -> Seq<char>
    decreases parts.len(),
{
    if parts.len() == 0 {
        seq![]
    } else {
        style + parts[0] + reset_style() + (if 0 <= k < vars.len() {
            value_style() + vars[k] + reset_style()
        } else {
            seq![]
        }) + styled_parts(style, parts.drop_first(), vars, k + 1)
    }
}

/// The message `template` in `style`, its `{}` placeholders filled, in order, with `vars`,
/// each dimmed; surplus values are dropped and surplus placeholders left empty. It ends with a
/// reset.
pub open spec fn styled(style: Seq<char>, template: Seq<char>, vars: Seq<Seq<char>>) -> Seq<char> {
    styled_parts(style, pieces(template), vars, 0) + reset_style()
}

/// The views of a slice of strings.
pub open spec fn str_views(v: Seq<&str>) -> Seq<Seq<char>> {
    v.map_values(|x: &str| x@)
}

proof fn lemma_styled_parts_step(
    style: Seq<char>,
    parts: Seq<Seq<char>>,
    vars: Seq<Seq<char>>,
    i: int,
)
    requires
        0 <= i < parts.len(),
    ensures
        styled_parts(style, parts.take(i + 1), vars, 0) == styled_parts(
            style,
            parts.take(i),
            vars,
            0,
        ) + style + parts[i] + reset_style() + (if i < vars.len() {
            value_style() + vars[i] + reset_style()
        } else {
            seq![]
        }),
{
    lemma_append_one(style, parts.take(i + 1), vars, 0);
    assert(parts.take(i + 1).drop_last() =~= parts.take(i));
}

/// Appending one piece at the end appends its rendering.
proof fn lemma_append_one(style: Seq<char>, parts: Seq<Seq<char>>, vars: Seq<Seq<char>>, k: int)
    requires
        parts.len() > 0,
        k >= 0,
    ensures
        styled_parts(style, parts, vars, k) == styled_parts(style, parts.drop_last(), vars, k)
            + style + parts.last() + reset_style() + (if k + parts.len() - 1 < vars.len() {
            value_style() + vars[k + parts.len() - 1] + reset_style()
        } else {
            seq![]
        }),
    decreases parts.len(),
{
    if parts.len() == 1 {
        assert(parts.drop_first() =~= Seq::<Seq<char>>::empty());
        assert(parts.drop_last() =~= Seq::<Seq<char>>::empty());
        assert(styled_parts(style, parts.drop_first(), vars, k + 1) == Seq::<char>::empty());
        assert(styled_parts(style, parts.drop_last(), vars, k) == Seq::<char>::empty());
        assert(styled_parts(style, parts, vars, k) =~= styled_parts(style, parts.drop_last(), vars, k)
            + style + parts.last() + reset_style() + (if k + parts.len() - 1 < vars.len() {
            value_style() + vars[k + parts.len() - 1] + reset_style()
        } else {
            seq![]
        }));
    } else {
        lemma_append_one(style, parts.drop_first(), vars, k + 1);
        assert(parts.drop_first().drop_last() =~= parts.drop_last().drop_first());
        assert(parts.drop_last()[0] == parts[0]);
        assert(parts.drop_first().last() == parts.last());
        let tail = if k < vars.len() {
            value_style() + vars[k] + reset_style()
        } else {
            seq![]
        };
        let last = if k + parts.len() - 1 < vars.len() {
            value_style() + vars[k + parts.len() - 1] + reset_style()
        } else {
            seq![]
        };
        assert(styled_parts(style, parts, vars, k) =~= styled_parts(style, parts.drop_last(), vars, k)
            + style + parts.last() + reset_style() + last);
    }
}

/// Whether `s` holds no `{}` placeholder.
pub open spec fn has_no_placeholder(s: Seq<char>) -> bool {
    forall|i: int| 0 <= i < s.len() - 1 ==> !(#[trigger] s[i] == '{' && s[i + 1] == '}')
}

proof fn lemma_pieces_without_placeholder(s: Seq<char>, cur: Seq<char>, acc: Seq<Seq<char>>)
    requires
        has_no_placeholder(s),
    ensures
        pieces_acc(s, cur, acc) == acc.push(cur + s),
    decreases s.len(),
{
    if s.len() == 0 {
        assert(cur + s =~= cur);
    } else {
        if s.len() >= 2 {
            assert(!(s[0] == '{' && s[1] == '}'));
        }
        let t = s.drop_first();
        assert forall|i: int| 0 <= i < t.len() - 1 implies !(#[trigger] t[i] == '{' && t[i + 1]
            == '}') by {
            assert(t[i] == s[i + 1] && t[i + 1] == s[i + 2]);
        }
        lemma_pieces_without_placeholder(t, cur.push(s[0]), acc);
        assert(cur.push(s[0]) + t =~= cur + s);
    }
}

/// A message without placeholders is its text in the style, then the first value dimmed (if
/// any value is given; the others are dropped), then the resets.
pub proof fn lemma_message_without_placeholder(
    style: Seq<char>,
    template: Seq<char>,
    vars: Seq<Seq<char>>,
)
    requires
        has_no_placeholder(template),
    ensures
        styled(style, template, vars) == style + template + reset_style() + (if vars.len() > 0 {
            value_style() + vars[0] + reset_style()
        } else {
            seq![]
        }) + reset_style(),
{
    lemma_pieces_without_placeholder(template, seq![], seq![]);
    let p = pieces(template);
    assert(p =~= seq![template]) by {
        assert(Seq::<char>::empty() + template =~= template);
    }
    assert(p.drop_first() =~= Seq::<Seq<char>>::empty());
    assert(styled_parts(style, p.drop_first(), vars, 1) == Seq::<char>::empty());
    let extra = if vars.len() > 0 {
        value_style() + vars[0] + reset_style()
    } else {
        seq![]
    };
    assert(styled_parts(style, p, vars, 0) =~= style + template + reset_style() + extra);
}

/// A message with the style of its parts left open: each `None` marks a place where the
/// style goes, each `Some` holds text that is the same whatever the style. The layout of
/// `parts` (the `k`-th piece first) and `vars`.
pub open spec fn layout_parts(parts: Seq<Seq<char>>, vars: Seq<Seq<char>>, k: int) -> Seq<
    Option<Seq<char>>,
>
    decreases parts.len(),
{
    if parts.len() == 0 {
        seq![]
    } else {
        seq![
            None,
            Some(
                parts[0] + reset_style() + (if 0 <= k < vars.len() {
                    value_style() + vars[k] + reset_style()
                } else {
                    seq![]
                }),
            ),
        ] + layout_parts(parts.drop_first(), vars, k + 1)
    }
}

/// The layout of the message `template` filled with `vars`, the final reset included.
pub open spec fn layout(template: Seq<char>, vars: Seq<Seq<char>>) -> Seq<Option<Seq<char>>> {
    layout_parts(pieces(template), vars, 0).push(Some(reset_style()))
}

/// A layout rendered in `style`: `style` at each open place, the fixed text elsewhere.
pub open spec fn render(l: Seq<Option<Seq<char>>>, style: Seq<char>) -> Seq<char>
    decreases l.len(),
{
    if l.len() == 0 {
        seq![]
    } else {
        (match l[0] {
            None => style,
            Some(t) => t,
        }) + render(l.drop_first(), style)
    }
}

proof fn lemma_render_concat(a: Seq<Option<Seq<char>>>, b: Seq<Option<Seq<char>>>, style: Seq<char>)
    ensures
        render(a + b, style) == render(a, style) + render(b, style),
    decreases a.len(),
{
    if a.len() == 0 {
        assert(a + b =~= b);
        assert(render(a, style) + render(b, style) =~= render(b, style));
    } else {
        lemma_render_concat(a.drop_first(), b, style);
        assert((a + b).drop_first() =~= a.drop_first() + b);
        assert((a + b)[0] == a[0]);
        let head = match a[0] {
            None => style,
            Some(t) => t,
        };
        assert(render(a + b, style) =~= head + render(a.drop_first(), style) + render(b, style));
    }
}

proof fn lemma_render_layout_parts(
    style: Seq<char>,
    parts: Seq<Seq<char>>,
    vars: Seq<Seq<char>>,
    k: int,
)
    ensures
        render(layout_parts(parts, vars, k), style) == styled_parts(style, parts, vars, k),
    decreases parts.len(),
{
    if parts.len() > 0 {
        lemma_render_layout_parts(style, parts.drop_first(), vars, k + 1);
        let fixed = parts[0] + reset_style() + (if 0 <= k < vars.len() {
            value_style() + vars[k] + reset_style()
        } else {
            seq![]
        });
        let head: Seq<Option<Seq<char>>> = seq![None, Some(fixed)];
        lemma_render_concat(head, layout_parts(parts.drop_first(), vars, k + 1), style);
        assert(head.drop_first().drop_first() =~= Seq::<Option<Seq<char>>>::empty());
        assert(render(head.drop_first().drop_first(), style) == Seq::<char>::empty());
        assert(head.drop_first()[0] == Some(fixed));
        assert(render(head.drop_first(), style) =~= fixed);
        assert(head[0] == None::<Seq<char>>);
        assert(render(head, style) =~= style + fixed);
        assert(styled_parts(style, parts, vars, k) =~= style + fixed + styled_parts(
            style,
            parts.drop_first(),
            vars,
            k + 1,
        ));
        assert(layout_parts(parts, vars, k) == head + layout_parts(parts.drop_first(), vars, k + 1));
    } else {
        assert(render(layout_parts(parts, vars, k), style) =~= Seq::<char>::empty());
    }
}

/// A message in any style is its layout rendered in that style: the layout does not depend
/// on the style.
proof fn lemma_styled_is_rendered(style: Seq<char>, template: Seq<char>, vars: Seq<Seq<char>>)
    ensures
        styled(style, template, vars) == render(layout(template, vars), style),
{
    let l = layout_parts(pieces(template), vars, 0);
    lemma_render_layout_parts(style, pieces(template), vars, 0);
    let tail: Seq<Option<Seq<char>>> = seq![Some(reset_style())];
    assert(l.push(Some(reset_style())) =~= l + tail);
    lemma_render_concat(l, tail, style);
    assert(tail.drop_first() =~= Seq::<Option<Seq<char>>>::empty());
    assert(render(tail.drop_first(), style) == Seq::<char>::empty());
    assert(tail[0] == Some(reset_style()));
    assert(render(tail, style) =~= reset_style());
}

/// Success, error and log messages differ only in the style of their parts: for the same
/// template and values, each is the same layout rendered in its own style.
pub proof fn lemma_messages_differ_only_in_style(template: Seq<char>, vars: Seq<Seq<char>>)
    ensures
        styled(ok_style(), template, vars) == render(layout(template, vars), ok_style()),
        styled(err_style(), template, vars) == render(layout(template, vars), err_style()),
        styled(log_style(), template, vars) == render(layout(template, vars), log_style()),
{
    lemma_styled_is_rendered(ok_style(), template, vars);
    lemma_styled_is_rendered(err_style(), template, vars);
    lemma_styled_is_rendered(log_style(), template, vars);
}

/// `text` with each occurrence of the non-empty `from`, found from the left and without
/// overlap, replaced by `to` (`str::replace`).
pub open spec fn replaced(text: Seq<char>, from: Seq<char>, to: Seq<char>) -> Seq<char>
    decreases text.len(),
{
    if text.len() == 0 {
        seq![]
    } else if from.len() > 0 && from.len() <= text.len() && text.take(from.len() as int) == from {
        to + replaced(text.skip(from.len() as int), from, to)
    } else {
        seq![text[0]] + replaced(text.drop_first(), from, to)
    }
}

/// Whether `s` holds no escape character.
pub open spec fn no_escape(s: Seq<char>) -> bool {
    forall|i: int| 0 <= i < s.len() ==> s[i] != '\x1b'
}

/// Whether no occurrence of `from` starts in `t`, whatever follows `t`: each place where `t`
/// holds the first character of `from` differs from `from` later on, within `t`.
spec fn unmatched(t: Seq<char>, from: Seq<char>) -> bool {
    forall|i: int|
        0 <= i < t.len() && t[i] == from[0] ==> exists|k: int|
            0 < k < from.len() && i + k < t.len() && #[trigger] t[i + k] != from[k]
}

proof fn lemma_replaced_skips(t: Seq<char>, r: Seq<char>, from: Seq<char>, to: Seq<char>)
    requires
        from.len() > 0,
        unmatched(t, from),
    ensures
        replaced(t + r, from, to) == t + replaced(r, from, to),
    decreases t.len(),
{
    if t.len() == 0 {
        assert(t + r =~= r);
    } else {
        let s = t + r;
        let n = from.len() as int;
        if n <= s.len() {
            if t[0] == from[0] {
                let k = choose|k: int| 0 < k < n && 0 + k < t.len() && #[trigger] t[0 + k] != from[k];
                assert(s.take(n)[k] != from[k]);
            } else {
                assert(s.take(n)[0] != from[0]);
            }
        }
        let u = t.drop_first();
        assert forall|i: int| 0 <= i < u.len() && u[i] == from[0] implies exists|k: int|
            0 < k < from.len() && i + k < u.len() && #[trigger] u[i + k] != from[k] by {
            assert(t[i + 1] == from[0]);
            let k = choose|k: int|
                0 < k < from.len() && (i + 1) + k < t.len() && #[trigger] t[(i + 1) + k] != from[k];
            assert(u[i + k] == t[(i + 1) + k]);
        }
        lemma_replaced_skips(u, r, from, to);
        assert(s.drop_first() =~= u + r);
        assert(seq![t[0]] + (u + r) =~= s);
        assert(seq![t[0]] + (u + replaced(r, from, to)) =~= t + replaced(r, from, to));
    }
}

proof fn lemma_replaced_at_start(r: Seq<char>, from: Seq<char>, to: Seq<char>)
    requires
        from.len() > 0,
    ensures
        replaced(from + r, from, to) == to + replaced(r, from, to),
{
    let s = from + r;
    assert(s.take(from.len() as int) =~= from);
    assert(s.skip(from.len() as int) =~= r);
}

proof fn lemma_unmatched_concat(a: Seq<char>, b: Seq<char>, from: Seq<char>)
    requires
        unmatched(a, from),
        unmatched(b, from),
    ensures
        unmatched(a + b, from),
{
    let t = a + b;
    assert forall|i: int| 0 <= i < t.len() && t[i] == from[0] implies exists|k: int|
        0 < k < from.len() && i + k < t.len() && #[trigger] t[i + k] != from[k] by {
        if i < a.len() {
            assert(a[i] == from[0]);
            let k = choose|k: int| 0 < k < from.len() && i + k < a.len() && #[trigger] a[i + k] != from[k];
            assert(t[i + k] == a[i + k]);
        } else {
            let j = i - a.len();
            assert(b[j] == from[0]);
            let k = choose|k: int| 0 < k < from.len() && j + k < b.len() && #[trigger] b[j + k] != from[k];
            assert(t[i + k] == b[j + k]);
        }
    }
}

/// A style code `ESC [ c m` holds no occurrence of a pattern that starts with `ESC [` and
/// differs from it in its third character.
proof fn lemma_code_unmatched(t: Seq<char>, from: Seq<char>)
    requires
        t.len() == 4,
        t[0] == '\x1b',
        t[1] != '\x1b',
        t[2] != '\x1b',
        t[3] != '\x1b',
        from.len() >= 3,
        from[0] == '\x1b',
        t[2] != from[2],
    ensures
        unmatched(t, from),
{
    assert forall|i: int| 0 <= i < t.len() && t[i] == from[0] implies exists|k: int|
        0 < k < from.len() && i + k < t.len() && #[trigger] t[i + k] != from[k] by {
        assert(i == 0);
        assert(t[0int + 2] != from[2]);
    }
}

proof fn lemma_plain_unmatched(t: Seq<char>, from: Seq<char>)
    requires
        no_escape(t),
        from.len() > 0,
        from[0] == '\x1b',
    ensures
        unmatched(t, from),
{
}

/// The text in a layout is unmatched wherever the pieces and values hold no escape.
proof fn lemma_layout_parts_unmatched(
    parts: Seq<Seq<char>>,
    vars: Seq<Seq<char>>,
    k: int,
    from: Seq<char>,
)
    requires
        forall|i: int| 0 <= i < parts.len() ==> no_escape(#[trigger] parts[i]),
        forall|i: int| 0 <= i < vars.len() ==> no_escape(#[trigger] vars[i]),
        from.len() >= 3,
        from[0] == '\x1b',
        from[2] != '0',
        from[2] != '2',
    ensures
        forall|j: int|
            0 <= j < layout_parts(parts, vars, k).len() ==> (
            #[trigger] layout_parts(parts, vars, k)[j] matches Some(t) ==> unmatched(t, from)),
    decreases parts.len(),
{
    if parts.len() > 0 {
        let rest = parts.drop_first();
        lemma_layout_parts_unmatched(rest, vars, k + 1, from);
        lemma_code_unmatched(reset_style(), from);
        lemma_code_unmatched(value_style(), from);
        lemma_plain_unmatched(parts[0], from);
        lemma_unmatched_concat(parts[0], reset_style(), from);
        let tail = if 0 <= k < vars.len() {
            value_style() + vars[k] + reset_style()
        } else {
            seq![]
        };
        if 0 <= k < vars.len() {
            lemma_plain_unmatched(vars[k], from);
            lemma_unmatched_concat(value_style(), vars[k], from);
            lemma_unmatched_concat(value_style() + vars[k], reset_style(), from);
        }
        lemma_unmatched_concat(parts[0] + reset_style(), tail, from);
        let fixed = parts[0] + reset_style() + tail;
        let head: Seq<Option<Seq<char>>> = seq![None, Some(fixed)];
        let l = layout_parts(parts, vars, k);
        assert(l == head + layout_parts(rest, vars, k + 1));
        assert forall|j: int| 0 <= j < l.len() implies (#[trigger] l[j] matches Some(t) ==> unmatched(
            t,
            from,
        )) by {
            if j >= 2 {
                assert(l[j] == layout_parts(rest, vars, k + 1)[j - 2]);
            }
        }
    }
}

/// Replacing in a rendered layout: where each fixed text is unmatched and the style `a`
/// becomes the style `b`, the whole rendering in `a` becomes the rendering in `b`.
proof fn lemma_replaced_render(
    l: Seq<Option<Seq<char>>>,
    a: Seq<char>,
    b: Seq<char>,
    from: Seq<char>,
    to: Seq<char>,
)
    requires
        from.len() > 0,
        forall|j: int| 0 <= j < l.len() ==> (#[trigger] l[j] matches Some(t) ==> unmatched(t, from)),
        forall|x: Seq<char>| #[trigger] replaced(a + x, from, to) == b + replaced(x, from, to),
    ensures
        replaced(render(l, a), from, to) == render(l, b),
    decreases l.len(),
{
    if l.len() > 0 {
        let rest = l.drop_first();
        assert forall|j: int| 0 <= j < rest.len() implies (#[trigger] rest[j] matches Some(t)
            ==> unmatched(t, from)) by {
            assert(rest[j] == l[j + 1]);
        }
        lemma_replaced_render(rest, a, b, from, to);
        match l[0] {
            None => {
                assert(replaced(a + render(rest, a), from, to) == b + replaced(render(rest, a), from, to));
            },
            Some(t) => {
                assert(l[0] matches Some(t) ==> unmatched(t, from));
                lemma_replaced_skips(t, render(rest, a), from, to);
            },
        }
    }
}

proof fn lemma_pieces_acc_no_escape(s: Seq<char>, cur: Seq<char>, acc: Seq<Seq<char>>)
    requires
        no_escape(s),
        no_escape(cur),
        forall|i: int| 0 <= i < acc.len() ==> no_escape(#[trigger] acc[i]),
    ensures
        forall|i: int|
            0 <= i < pieces_acc(s, cur, acc).len() ==> no_escape(#[trigger] pieces_acc(s, cur, acc)[i]),
    decreases s.len(),
{
    if s.len() == 0 {
        assert(pieces_acc(s, cur, acc) == acc.push(cur));
        assert forall|i: int| 0 <= i < acc.push(cur).len() implies no_escape(#[trigger] acc.push(cur)[i]) by {
            if i < acc.len() {
                assert(acc.push(cur)[i] == acc[i]);
            } else {
                assert(acc.push(cur)[i] == cur);
            }
        }
    } else if starts_with_placeholder(s) {
        let next = acc.push(cur);
        assert forall|i: int| 0 <= i < next.len() implies no_escape(#[trigger] next[i]) by {
            if i < acc.len() {
                assert(next[i] == acc[i]);
            }
        }
        assert forall|i: int| 0 <= i < s.skip(2).len() implies s.skip(2)[i] != '\x1b' by {
            assert(s.skip(2)[i] == s[i + 2]);
        }
        assert(no_escape(Seq::<char>::empty()));
        lemma_pieces_acc_no_escape(s.skip(2), seq![], next);
        assert(pieces_acc(s, cur, acc) == pieces_acc(s.skip(2), seq![], next));
    } else {
        assert forall|i: int| 0 <= i < s.drop_first().len() implies s.drop_first()[i] != '\x1b' by {
            assert(s.drop_first()[i] == s[i + 1]);
        }
        assert forall|i: int| 0 <= i < cur.push(s[0]).len() implies cur.push(s[0])[i] != '\x1b' by {
            if i < cur.len() {
                assert(cur.push(s[0])[i] == cur[i]);
            }
        }
        lemma_pieces_acc_no_escape(s.drop_first(), cur.push(s[0]), acc);
        assert(pieces_acc(s, cur, acc) == pieces_acc(s.drop_first(), cur.push(s[0]), acc));
    }
}

/// The code that starts the red of error messages.
pub open spec fn red_code() -> Seq<char> {
    seq!['\x1b', '[', '3', '1', 'm']
}

/// The code that starts the green of success messages.
pub open spec fn green_code() -> Seq<char> {
    seq!['\x1b', '[', '3', '2', 'm']
}

/// Success, error and log messages differ only in the colour of their parts: where the
/// template and the values hold no escape character, the log message is the success message
/// with its style (bold green) replaced by bold, and the error message with its red replaced
/// by green is the success message.
pub proof fn lemma_message_kinds_differ_only_in_colour(template: Seq<char>, vars: Seq<Seq<char>>)
    requires
        no_escape(template),
        forall|i: int| 0 <= i < vars.len() ==> no_escape(#[trigger] vars[i]),
    ensures
        replaced(styled(ok_style(), template, vars), ok_style(), log_style()) == styled(
            log_style(),
            template,
            vars,
        ),
        replaced(styled(err_style(), template, vars), red_code(), green_code()) == styled(
            ok_style(),
            template,
            vars,
        ),
{
    lemma_messages_differ_only_in_style(template, vars);
    let ps = pieces(template);
    assert(no_escape(Seq::<char>::empty()));
    lemma_pieces_acc_no_escape(template, seq![], seq![]);
    let l = layout(template, vars);
    let lp = layout_parts(ps, vars, 0);
    assert forall|from: Seq<char>|
        from.len() >= 3 && from[0] == '\x1b' && from[2] != '0' && from[2] != '2' implies forall|j: int|
        0 <= j < l.len() ==> (#[trigger] l[j] matches Some(t) ==> unmatched(t, from)) by {
        lemma_layout_parts_unmatched(ps, vars, 0, from);
        lemma_code_unmatched(reset_style(), from);
        assert forall|j: int| 0 <= j < l.len() implies (#[trigger] l[j] matches Some(t) ==> unmatched(
            t,
            from,
        )) by {
            if j < lp.len() {
                assert(l[j] == lp[j]);
            }
        }
    }
    assert forall|x: Seq<char>| #[trigger] replaced(ok_style() + x, ok_style(), log_style())
        == log_style() + replaced(x, ok_style(), log_style()) by {
        lemma_replaced_at_start(x, ok_style(), log_style());
    }
    lemma_replaced_render(l, ok_style(), log_style(), ok_style(), log_style());
    assert forall|x: Seq<char>| #[trigger] replaced(err_style() + x, red_code(), green_code())
        == ok_style() + replaced(x, red_code(), green_code()) by {
        let bold = log_style();
        assert(err_style() + x =~= bold + (red_code() + x));
        lemma_code_unmatched(bold, red_code());
        lemma_replaced_skips(bold, red_code() + x, red_code(), green_code());
        lemma_replaced_at_start(x, red_code(), green_code());
        assert(bold + (green_code() + replaced(x, red_code(), green_code())) =~= ok_style()
            + replaced(x, red_code(), green_code()));
    }
    lemma_replaced_render(l, err_style(), ok_style(), red_code(), green_code());
}

/// The message `template` in `style`, its placeholders filled with `vars`.
fn color_fmt(style: &str, template: &str, vars: &[&str]) -> (res: String)
    ensures
        res@ == styled(style@, template@, str_views(vars@)),
{
    let v = "\x1b[2m";
    let r = "\x1b[0m";
    proof {
        reveal_strlit("\x1b[2m");
        reveal_strlit("\x1b[0m");
        assert(v@ =~= value_style());
        assert(r@ =~= reset_style());
    }
    let parts = split_placeholders(template);
    let ghost ps = views(parts@);
    let ghost vs = str_views(vars@);
    let mut out = String::new();
    let mut i: usize = 0;
    assert(ps.take(0) =~= Seq::<Seq<char>>::empty());
    while i < parts.len()
        invariant
            i <= parts.len(),
            ps == views(parts@),
            vs == str_views(vars@),
            v@ == value_style(),
            r@ == reset_style(),
            out@ == styled_parts(style@, ps.take(i as int), vs, 0),
        decreases parts.len() - i,
    {
        proof {
            lemma_styled_parts_step(style@, ps, vs, i as int);
        }
        out.append(style);
        out.append(parts[i].as_str());
        out.append(r);
        if i < vars.len() {
            out.append(v);
            out.append(vars[i]);
            out.append(r);
        }
        i = i + 1;
    }
    assert(ps.take(i as int) =~= ps);
    out.append(r);
    out
}

/// `template` as a success message, its `{}` placeholders filled with `vars`.
pub fn color_fmt_ok(s: &str, vars: &[&str]) -> (res: String)
    ensures
        res@ == styled(ok_style(), s@, str_views(vars@)),
{
    let t = "\x1b[1m\x1b[32m";
    proof {
        reveal_strlit("\x1b[1m\x1b[32m");
        assert(t@ =~= ok_style());
    }
    color_fmt(t, s, vars)
}

/// `template` as an error message, its `{}` placeholders filled with `vars`.
pub fn color_fmt_err(s: &str, vars: &[&str]) -> (res: String)
    ensures
        res@ == styled(err_style(), s@, str_views(vars@)),
{
    let t = "\x1b[1m\x1b[31m";
    proof {
        reveal_strlit("\x1b[1m\x1b[31m");
        assert(t@ =~= err_style());
    }
    color_fmt(t, s, vars)
}

/// `template` as a log message, its `{}` placeholders filled with `vars`.
pub fn color_fmt_log(s: &str, vars: &[&str]) -> (res: String)
    ensures
        res@ == styled(log_style(), s@, str_views(vars@)),
{
    let t = "\x1b[1m";
    proof {
        reveal_strlit("\x1b[1m");
        assert(t@ =~= log_style());
    }
    color_fmt(t, s, vars)
}

/// The lines of the prompt's help, each a log message.
pub fn help_lines() -> (res: Vec<String>)
    ensures
        res@.len() == 7,
        res@[0]@ == styled(log_style(), "Available commands:"@, seq![]),
        res@[1]@ == styled(log_style(), "adduser {} - Add a new user"@, seq!["<name>"@]),
        res@[2]@ == styled(
            log_style(),
            "adddays {} {} - Add days to a user"@,
            seq!["<name>"@, "<days>"@],
        ),
        res@[3]@ == styled(
            log_style(),
            "changestatus {} {} - Change user status"@,
            seq!["<name>"@, "<true/false>"@],
        ),
        res@[4]@ == styled(log_style(), "sync - Sync with API"@, seq![]),
        res@[5]@ == styled(log_style(), "help - Show this message"@, seq![]),
        res@[6]@ == styled(log_style(), "quit/exit - Exit the program"@, seq![]),
{
    let mut res: Vec<String> = Vec::new();
    let none: [&str; 0] = [];
    let name: [&str; 1] = ["<name>"];
    let name_days: [&str; 2] = ["<name>", "<days>"];
    let name_status: [&str; 2] = ["<name>", "<true/false>"];
    assert(str_views(none@) =~= seq![]);
    assert(str_views(name@) =~= seq!["<name>"@]);
    assert(str_views(name_days@) =~= seq!["<name>"@, "<days>"@]);
    assert(str_views(name_status@) =~= seq!["<name>"@, "<true/false>"@]);
    res.push(color_fmt_log("Available commands:", &none));
    res.push(color_fmt_log("adduser {} - Add a new user", &name));
    res.push(color_fmt_log("adddays {} {} - Add days to a user", &name_days));
    res.push(color_fmt_log("changestatus {} {} - Change user status", &name_status));
    res.push(color_fmt_log("sync - Sync with API", &none));
    res.push(color_fmt_log("help - Show this message", &none));
    res.push(color_fmt_log("quit/exit - Exit the program", &none));
    res
}

} // verus!
