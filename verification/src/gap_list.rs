//! The generator list that the GAP group command carries, read back by the
//! generator parser.

use vstd::prelude::*;
use crate::text::{
    split_seq, starts_with, prepend, lemma_split_nonempty, dec, lemma_dec_value, is_digit, is_ws,
    trim, trim_start, trim_end, parse_usize_spec,
};
use crate::gap::{gap_numbers, gap_cycles, gap_operation, gap_operations, group_cmd, elements_below_max};
use crate::generator::{
    without_parens, parse_numbers, parse_cycle, parse_cycles, parse_operation, parse_operations,
    parse_generator,
};

verus! {

/// A pattern none of whose later characters equals its first, so that no
/// two occurrences of it can overlap.
pub open spec fn unbordered(pat: Seq<char>) -> bool {
    &&& pat.len() > 0
    &&& forall|d: int| 0 < d < pat.len() ==> #[trigger] pat[d] != pat[0]
}

/// Splitting on an unbordered pattern around one of its occurrences splits
/// each side on its own.
pub proof fn lemma_split_concat(a: Seq<char>, pat: Seq<char>, b: Seq<char>)
    requires
        unbordered(pat),
    ensures
        split_seq(a + pat + b, pat) == split_seq(a, pat) + split_seq(b, pat),
    decreases a.len(),
{
    let s = a + pat + b;
    let n = pat.len() as int;
    if a.len() == 0 {
        assert(s =~= pat + b);
        assert(s.take(n) =~= pat);
        assert(s.skip(n) =~= b);
        assert(split_seq(s, pat) =~= split_seq(a, pat) + split_seq(b, pat));
    } else if starts_with(s, pat) {
        if a.len() < n {
            let d = a.len() as int;
            assert(s[d] == pat[0]);
            assert(s.take(n)[d] == pat[d]);
            assert(false);
        }
        assert(a.take(n) =~= s.take(n));
        lemma_split_concat(a.skip(n), pat, b);
        assert(s.skip(n) =~= a.skip(n) + pat + b);
        assert(split_seq(s, pat) =~= split_seq(a, pat) + split_seq(b, pat));
    } else {
        if a.len() >= n {
            assert(a.take(n) =~= s.take(n));
        }
        lemma_split_concat(a.drop_first(), pat, b);
        assert(s.drop_first() =~= a.drop_first() + pat + b);
        let x = split_seq(a.drop_first(), pat);
        let y = split_seq(b, pat);
        lemma_split_nonempty(a.drop_first(), pat);
        assert(prepend(seq![a[0]], x + y) =~= prepend(seq![a[0]], x) + y);
    }
}

/// A text with no occurrence of the pattern is one piece.
pub proof fn lemma_split_whole(a: Seq<char>, pat: Seq<char>)
    requires
        pat.len() > 0,
        forall|i: int| 0 <= i < a.len() ==> !starts_with(#[trigger] a.skip(i), pat),
    ensures
        split_seq(a, pat) == seq![a],
    decreases a.len(),
{
    if a.len() > 0 {
        assert(a.skip(0) =~= a);
        assert forall|i: int| 0 <= i < a.drop_first().len() implies !starts_with(
            #[trigger] a.drop_first().skip(i),
            pat,
        ) by {
            assert(a.drop_first().skip(i) =~= a.skip(i + 1));
        }
        lemma_split_whole(a.drop_first(), pat);
        assert(seq![a[0]] + a.drop_first() =~= a);
        assert(!starts_with(a.skip(0), pat));
        assert(!starts_with(a, pat));
        assert(prepend(seq![a[0]], seq![a.drop_first()]) =~= seq![a]);
    } else {
        assert(a =~= Seq::<char>::empty());
    }
}

/// A text where the pattern's first two characters never stand side by side
/// is one piece.
pub proof fn lemma_split_whole_pair(a: Seq<char>, pat: Seq<char>)
    requires
        pat.len() >= 2,
        forall|i: int| 0 <= i < a.len() - 1 && #[trigger] a[i] == pat[0] ==> a[i + 1] != pat[1],
    ensures
        split_seq(a, pat) == seq![a],
{
    assert forall|i: int| 0 <= i < a.len() implies !starts_with(#[trigger] a.skip(i), pat) by {
        if starts_with(a.skip(i), pat) {
            let n = pat.len() as int;
            assert(a.skip(i).take(n)[0] == pat[0]);
            assert(a.skip(i).take(n)[1] == pat[1]);
            assert(a[i] == pat[0]);
            assert(a[i + 1] == pat[1]);
        }
    }
    lemma_split_whole(a, pat);
}

/// A text without the character is one piece when split on it.
pub proof fn lemma_split_whole_char(a: Seq<char>, c: char)
    requires
        forall|i: int| 0 <= i < a.len() ==> #[trigger] a[i] != c,
    ensures
        split_seq(a, seq![c]) == seq![a],
{
    assert forall|i: int| 0 <= i < a.len() implies !starts_with(#[trigger] a.skip(i), seq![c]) by {
        if starts_with(a.skip(i), seq![c]) {
            assert(a.skip(i).take(1)[0] == c);
        }
    }
    lemma_split_whole(a, seq![c]);
}

/// A cycle with every element one larger (GAP numbers elements from one).
pub open spec fn shift_cycle(c: Seq<usize>) -> Seq<usize> {
    c.map_values(|x: usize| (x + 1) as usize)
}

/// An operation with every element one larger.
pub open spec fn shift_operation(op: Seq<Seq<usize>>) -> Seq<Seq<usize>> {
    op.map_values(|c: Seq<usize>| shift_cycle(c))
}

/// A generator with every element one larger.
pub open spec fn shift_generator(g: Seq<Seq<Seq<usize>>>) -> Seq<Seq<Seq<usize>>> {
    g.map_values(|op: Seq<Seq<usize>>| shift_operation(op))
}

/// Every element of the cycle is below `usize::MAX`.
pub open spec fn cycle_below_max(c: Seq<usize>) -> bool {
    forall|k: int| 0 <= k < c.len() ==> #[trigger] c[k] < usize::MAX
}

proof fn lemma_trim_plain(s: Seq<char>)
    requires
        s.len() > 0,
        !is_ws(s[0]),
        !is_ws(s.last()),
    ensures
        trim(s) == s,
{
    assert(trim_start(s) == s);
    assert(trim_end(s) == s);
}

proof fn lemma_digit_not_ws(c: char)
    requires
        is_digit(c),
    ensures
        !is_ws(c),
        c != ',' && c != '(' && c != ')' && c != '+',
{
}

/// The digits of `dec(n)` read back as `n`.
proof fn lemma_parse_dec(n: nat)
    requires
        n <= usize::MAX,
    ensures
        trim(dec(n)) == dec(n),
        parse_usize_spec(dec(n)) == Some(n as usize),
        forall|i: int| 0 <= i < dec(n).len() ==> #[trigger] dec(n)[i] != ',' && dec(n)[i] != '('
            && dec(n)[i] != ')',
{
    lemma_dec_value(n);
    let d = dec(n);
    lemma_digit_not_ws(d[0]);
    lemma_digit_not_ws(d.last());
    lemma_trim_plain(d);
    assert forall|i: int| 0 <= i < d.len() implies #[trigger] d[i] != ',' && d[i] != '(' && d[i]
        != ')' by {
        lemma_digit_not_ws(d[i]);
    }
}

/// The characters of a cycle's numbers are digits and commas.
proof fn lemma_gap_numbers_chars(c: Seq<usize>)
    requires
        cycle_below_max(c),
    ensures
        forall|i: int| 0 <= i < gap_numbers(c).len() ==> #[trigger] gap_numbers(c)[i] != '('
            && gap_numbers(c)[i] != ')',
        c.len() > 0 ==> gap_numbers(c).len() > 0,
    decreases c.len(),
{
    if c.len() == 1 {
        lemma_parse_dec((c[0] + 1) as nat);
    } else if c.len() > 1 {
        let c2 = c.drop_last();
        lemma_gap_numbers_chars(c2);
        lemma_parse_dec((c.last() + 1) as nat);
        let t = gap_numbers(c2) + seq![','] + dec((c.last() + 1) as nat);
        assert(gap_numbers(c) == t);
        assert forall|i: int| 0 <= i < t.len() implies #[trigger] t[i] != '(' && t[i] != ')' by {
            if i < gap_numbers(c2).len() {
                assert(t[i] == gap_numbers(c2)[i]);
            } else if i > gap_numbers(c2).len() {
                assert(t[i] == dec((c.last() + 1) as nat)[i - gap_numbers(c2).len() - 1]);
            }
        }
    }
}

/// The numbers of a cycle, split at commas, read back as the cycle shifted
/// by one.
proof fn lemma_parse_gap_numbers(c: Seq<usize>)
    requires
        c.len() >= 1,
        cycle_below_max(c),
    ensures
        parse_numbers(split_seq(gap_numbers(c), seq![','])) == Some(shift_cycle(c)),
    decreases c.len(),
{
    let n = (c.last() + 1) as nat;
    let d = dec(n);
    lemma_parse_dec(n);
    lemma_split_whole_char(d, ',');
    if c.len() == 1 {
        assert(gap_numbers(c) == d);
        let parts = seq![d];
        assert(parts.drop_last() =~= Seq::<Seq<char>>::empty());
        assert(parse_numbers(parts.drop_last()) == Some(Seq::<usize>::empty()));
        assert(d.len() > 0);
        assert(Seq::<usize>::empty().push(n as usize) =~= shift_cycle(c));
    } else {
        let c2 = c.drop_last();
        lemma_parse_gap_numbers(c2);
        lemma_split_concat(gap_numbers(c2), seq![','], d);
        assert(gap_numbers(c) == gap_numbers(c2) + seq![','] + d);
        let parts = split_seq(gap_numbers(c2), seq![',']) + seq![d];
        assert(parts.drop_last() =~= split_seq(gap_numbers(c2), seq![',']));
        assert(parts.last() == d);
        assert(shift_cycle(c2).push(n as usize) =~= shift_cycle(c));
    }
}

proof fn lemma_without_parens_concat(a: Seq<char>, b: Seq<char>)
    ensures
        without_parens(a + b) == without_parens(a) + without_parens(b),
    decreases b.len(),
{
    if b.len() == 0 {
        assert(a + b =~= a);
        assert(without_parens(a) + without_parens(b) =~= without_parens(a));
    } else {
        lemma_without_parens_concat(a, b.drop_last());
        assert((a + b).drop_last() =~= a + b.drop_last());
        assert((a + b).last() == b.last());
        assert(without_parens(a + b) =~= without_parens(a) + without_parens(b));
    }
}

proof fn lemma_without_parens_plain(s: Seq<char>)
    requires
        forall|i: int| 0 <= i < s.len() ==> #[trigger] s[i] != '(' && s[i] != ')',
    ensures
        without_parens(s) == s,
    decreases s.len(),
{
    if s.len() == 0 {
        assert(without_parens(s) =~= s);
    } else {
        let t = s.drop_last();
        assert forall|i: int| 0 <= i < t.len() implies #[trigger] t[i] != '(' && t[i] != ')' by {
            assert(t[i] == s[i]);
        }
        lemma_without_parens_plain(t);
        assert(s.last() == s[s.len() - 1]);
        assert(t.push(s.last()) =~= s);
    }
}

/// `(` when `b`, else nothing.
pub open spec fn opening(b: bool) -> Seq<char> {
    if b {
        seq!['(']
    } else {
        Seq::empty()
    }
}

/// `)` when `b`, else nothing.
pub open spec fn closing(b: bool) -> Seq<char> {
    if b {
        seq![')']
    } else {
        Seq::empty()
    }
}

proof fn lemma_without_parens_ends(open: bool, close: bool)
    ensures
        without_parens(opening(open)) == Seq::<char>::empty(),
        without_parens(closing(close)) == Seq::<char>::empty(),
{
    assert(seq!['('].drop_last() =~= Seq::<char>::empty());
    assert(seq![')'].drop_last() =~= Seq::<char>::empty());
    assert(without_parens(Seq::<char>::empty()) =~= Seq::<char>::empty());
}

/// One cycle's text, possibly with the parenthesis before it and the one
/// after it: it holds no `)(`, and reads back as the cycle shifted by one.
proof fn lemma_parse_cycle_text(c: Seq<usize>, open: bool, close: bool)
    requires
        cycle_below_max(c),
    ensures
        ({
            let t = opening(open) + gap_numbers(c) + closing(close);
            &&& parse_cycle(t) == Some(shift_cycle(c))
            &&& forall|i: int| 0 <= i < t.len() && #[trigger] t[i] == ')' ==> i == t.len() - 1
        }),
{
    let gn = gap_numbers(c);
    let t = opening(open) + gn + closing(close);
    lemma_gap_numbers_chars(c);
    lemma_without_parens_ends(open, close);
    lemma_without_parens_plain(gn);
    lemma_without_parens_concat(opening(open), gn);
    lemma_without_parens_concat(opening(open) + gn, closing(close));
    assert(without_parens(t) =~= gn);
    if c.len() == 0 {
        assert(gn =~= Seq::<char>::empty());
        assert(shift_cycle(c) =~= Seq::<usize>::empty());
    } else {
        lemma_parse_gap_numbers(c);
    }
    let o = opening(open).len();
    assert forall|i: int| 0 <= i < t.len() && #[trigger] t[i] == ')' implies i == t.len() - 1 by {
        if i < o {
            assert(t[i] == '(');
        } else if i < o + gn.len() {
            assert(t[i] == gn[i - o]);
        }
    }
}

/// The cycles of an operation between its outer parentheses, joined by
/// `)(`.
pub open spec fn cycles_inner(op: Seq<Seq<usize>>) -> Seq<char>
    decreases op.len(),
{
    if op.len() == 0 {
        Seq::empty()
    } else if op.len() == 1 {
        gap_numbers(op[0])
    } else {
        cycles_inner(op.drop_last()) + seq![')', '('] + gap_numbers(op.last())
    }
}

/// Every element of every cycle is below `usize::MAX`.
pub open spec fn operation_below_max(op: Seq<Seq<usize>>) -> bool {
    forall|j: int| 0 <= j < op.len() ==> cycle_below_max(#[trigger] op[j])
}

/// An operation's text is its inner text in parentheses; inside it, every
/// `)` is followed by `(`.
proof fn lemma_cycles_inner(op: Seq<Seq<usize>>)
    requires
        op.len() >= 1,
        operation_below_max(op),
    ensures
        gap_operation(op) == seq!['('] + cycles_inner(op) + seq![')'],
        forall|i: int| 0 <= i < cycles_inner(op).len() && #[trigger] cycles_inner(op)[i] == ')'
            ==> i + 1 < cycles_inner(op).len() && cycles_inner(op)[i + 1] == '(',
    decreases op.len(),
{
    let j = cycles_inner(op);
    if op.len() == 1 {
        assert(op.drop_last() =~= Seq::<Seq<usize>>::empty());
        assert(gap_cycles(op.drop_last()) == Seq::<char>::empty());
        assert(op.last() == op[0]);
        assert(gap_cycles(op) == gap_cycles(op.drop_last()) + seq!['('] + gap_numbers(op.last())
            + seq![')']);
        assert(gap_cycles(op) =~= seq!['('] + j + seq![')']);
        assert(cycle_below_max(op[0]));
        lemma_gap_numbers_chars(op[0]);
    } else {
        let o2 = op.drop_last();
        assert forall|k: int| 0 <= k < o2.len() implies cycle_below_max(#[trigger] o2[k]) by {
            assert(o2[k] == op[k]);
        }
        lemma_cycles_inner(o2);
        assert(cycle_below_max(op[op.len() - 1]));
        assert(op.last() == op[op.len() - 1]);
        lemma_gap_numbers_chars(op.last());
        let j2 = cycles_inner(o2);
        let gn = gap_numbers(op.last());
        assert(gap_cycles(o2) == seq!['('] + j2 + seq![')']);
        assert(j == j2 + seq![')', '('] + gn);
        assert(gap_cycles(op) == gap_cycles(o2) + seq!['('] + gn + seq![')']);
        assert(gap_cycles(op) =~= seq!['('] + j + seq![')']);
        assert forall|i: int| 0 <= i < j.len() && #[trigger] j[i] == ')' implies i + 1 < j.len()
            && j[i + 1] == '(' by {
            if i < j2.len() {
                assert(j[i] == j2[i]);
                assert(j[i + 1] == j2[i + 1]);
            } else if i == j2.len() {
            } else if i == j2.len() + 1 {
            } else {
                assert(j[i] == gn[i - j2.len() - 2]);
            }
        }
    }
}

/// In an operation's inner text, possibly with the parenthesis before it
/// and the one after it, no `)` is followed by `,`.
proof fn lemma_no_comma_after_paren(op: Seq<Seq<usize>>, open: bool, close: bool)
    requires
        op.len() >= 1,
        operation_below_max(op),
    ensures
        ({
            let t = opening(open) + cycles_inner(op) + closing(close);
            forall|i: int| 0 <= i < t.len() - 1 && #[trigger] t[i] == ')' ==> t[i + 1] != ','
        }),
{
    let j = cycles_inner(op);
    let t = opening(open) + j + closing(close);
    let o = opening(open).len();
    lemma_cycles_inner(op);
    assert forall|i: int| 0 <= i < t.len() - 1 && #[trigger] t[i] == ')' implies t[i + 1] != ',' by {
        if i < o {
            assert(t[i] == '(');
        } else if i < o + j.len() {
            assert(t[i] == j[i - o]);
            assert(t[i + 1] == j[i - o + 1]);
        }
    }
}

/// An operation's inner text, possibly with the parenthesis before it and
/// the one after it, split at `)(`, reads back as the operation shifted by
/// one.
proof fn lemma_parse_cycles_text(op: Seq<Seq<usize>>, open: bool, close: bool)
    requires
        op.len() >= 1,
        operation_below_max(op),
    ensures
        parse_cycles(split_seq(opening(open) + cycles_inner(op) + closing(close), seq![')', '(']))
            == Some(shift_operation(op)),
    decreases op.len(), 1nat,
{
    let pat = seq![')', '('];
    let t = opening(open) + cycles_inner(op) + closing(close);
    assert(pat[1] != pat[0]);
    if op.len() == 1 {
        assert(cycle_below_max(op[0]));
        lemma_parse_cycle_text(op[0], open, close);
        assert(cycles_inner(op) == gap_numbers(op[0]));
        lemma_split_whole_pair(t, pat);
        let parts = seq![t];
        assert(parts.drop_last() =~= Seq::<Seq<char>>::empty());
        assert(parse_cycles(parts.drop_last()) == Some(Seq::<Seq<usize>>::empty()));
        assert(parts.last() == t);
        assert(parse_cycle(t) == Some(shift_cycle(op[0])));
        assert(Seq::<Seq<usize>>::empty().push(shift_cycle(op[0])) =~= shift_operation(op));
        assert(parse_cycles(parts) == Some(shift_operation(op)));
    } else {
        lemma_parse_cycles_step(op, open, close);
    }
}

proof fn lemma_parse_cycles_step(op: Seq<Seq<usize>>, open: bool, close: bool)
    requires
        op.len() >= 2,
        operation_below_max(op),
    ensures
        parse_cycles(split_seq(opening(open) + cycles_inner(op) + closing(close), seq![')', '(']))
            == Some(shift_operation(op)),
    decreases op.len(), 0nat,
{
    let pat = seq![')', '('];
    assert(pat[1] != pat[0]);
    let t = opening(open) + cycles_inner(op) + closing(close);
    let o2 = op.drop_last();
    assert forall|k: int| 0 <= k < o2.len() implies cycle_below_max(#[trigger] o2[k]) by {
        assert(o2[k] == op[k]);
    }
    lemma_parse_cycles_text(o2, open, false);
    assert(cycle_below_max(op[op.len() - 1]));
    assert(op.last() == op[op.len() - 1]);
    lemma_parse_cycle_text(op.last(), false, close);
    let gn = gap_numbers(op.last());
    let a = opening(open) + cycles_inner(o2);
    let b = gn + closing(close);
    assert(cycles_inner(op) == cycles_inner(o2) + pat + gn);
    assert(t =~= a + pat + b);
    lemma_split_concat(a, pat, b);
    assert(opening(false) + gn + closing(close) =~= b);
    lemma_split_whole_pair(b, pat);
    assert(a + closing(false) =~= a);
    let parts = split_seq(a, pat) + seq![b];
    assert(split_seq(t, pat) == parts);
    assert(parts.drop_last() =~= split_seq(a, pat));
    assert(parts.last() == b);
    assert(parse_cycles(parts.drop_last()) == Some(shift_operation(o2)));
    assert(parse_cycle(b) == Some(shift_cycle(op.last())));
    assert(shift_operation(o2).push(shift_cycle(op.last())) =~= shift_operation(op));
}

/// The operations of a generator between the outer parentheses, joined by
/// `),(`.
pub open spec fn operations_inner(g: Seq<Seq<Seq<usize>>>) -> Seq<char>
    decreases g.len(),
{
    if g.len() == 0 {
        Seq::empty()
    } else if g.len() == 1 {
        cycles_inner(g[0])
    } else {
        operations_inner(g.drop_last()) + seq![')', ',', '('] + cycles_inner(g.last())
    }
}

/// No operation is the identity, and every element is below `usize::MAX`.
pub open spec fn generator_for_gap_list(g: Seq<Seq<Seq<usize>>>) -> bool {
    forall|i: int| 0 <= i < g.len() ==> (#[trigger] g[i]).len() >= 1 && operation_below_max(g[i])
}

proof fn lemma_generator_prefix(g: Seq<Seq<Seq<usize>>>)
    requires
        g.len() >= 1,
        generator_for_gap_list(g),
    ensures
        generator_for_gap_list(g.drop_last()),
        g.last().len() >= 1,
        operation_below_max(g.last()),
{
    let g2 = g.drop_last();
    assert forall|i: int| 0 <= i < g2.len() implies (#[trigger] g2[i]).len() >= 1
        && operation_below_max(g2[i]) by {
        assert(g2[i] == g[i]);
    }
    assert(g.last() == g[g.len() - 1]);
}

/// The operations' text is their inner text in parentheses.
proof fn lemma_operations_inner(g: Seq<Seq<Seq<usize>>>)
    requires
        g.len() >= 1,
        generator_for_gap_list(g),
    ensures
        gap_operations(g) == seq!['('] + operations_inner(g) + seq![')'],
    decreases g.len(),
{
    lemma_generator_prefix(g);
    if g.len() == 1 {
        assert(g.last() == g[0]);
        lemma_cycles_inner(g[0]);
    } else {
        let g2 = g.drop_last();
        lemma_operations_inner(g2);
        lemma_cycles_inner(g.last());
        assert(gap_operations(g) == gap_operations(g2) + seq![','] + gap_operation(g.last()));
        assert(operations_inner(g) == operations_inner(g2) + seq![')', ',', '('] + cycles_inner(
            g.last(),
        ));
        assert(gap_operations(g) =~= seq!['('] + operations_inner(g) + seq![')']);
    }
}

/// `(`, the operations' inner text and possibly `)`, split at `),(`, reads
/// back as the generator shifted by one.
proof fn lemma_parse_operations_text(g: Seq<Seq<Seq<usize>>>, close: bool)
    requires
        g.len() >= 1,
        generator_for_gap_list(g),
    ensures
        parse_operations(split_seq(seq!['('] + operations_inner(g) + closing(close), seq![')', ',', '(']))
            == Some(shift_generator(g)),
    decreases g.len(),
{
    let pat = seq![')', ',', '('];
    assert(pat[1] != pat[0] && pat[2] != pat[0]);
    assert(unbordered(pat));
    let t = seq!['('] + operations_inner(g) + closing(close);
    lemma_generator_prefix(g);
    let last = g.last();
    if g.len() == 1 {
        assert(last == g[0]);
        lemma_no_comma_after_paren(last, true, close);
        assert(opening(true) == seq!['(']);
        lemma_split_whole_pair(t, pat);
        lemma_parse_cycles_text(last, true, close);
        let parts = seq![t];
        assert(parts.drop_last() =~= Seq::<Seq<char>>::empty());
        assert(parse_operations(parts.drop_last()) == Some(Seq::<Seq<Seq<usize>>>::empty()));
        assert(parts.last() == t);
        assert(parse_operation(t) == Some(shift_operation(last)));
        assert(Seq::<Seq<Seq<usize>>>::empty().push(shift_operation(last)) =~= shift_generator(g));
    } else {
        let g2 = g.drop_last();
        lemma_parse_operations_text(g2, false);
        let a = seq!['('] + operations_inner(g2);
        let b = cycles_inner(last) + closing(close);
        assert(t =~= a + pat + b);
        lemma_split_concat(a, pat, b);
        lemma_no_comma_after_paren(last, false, close);
        assert(opening(false) + cycles_inner(last) + closing(close) =~= b);
        lemma_split_whole_pair(b, pat);
        lemma_parse_cycles_text(last, false, close);
        assert(a + closing(false) =~= a);
        let parts = split_seq(a, pat) + seq![b];
        assert(split_seq(t, pat) == parts);
        assert(parts.drop_last() =~= split_seq(a, pat));
        assert(parts.last() == b);
        assert(parse_operations(parts.drop_last()) == Some(shift_generator(g2)));
        assert(parse_operation(b) == Some(shift_operation(last)));
        assert(shift_generator(g2).push(shift_operation(last)) =~= shift_generator(g));
    }
}

/// The generator list that the GAP group command carries: `[`, the
/// operations, `]`.
pub open spec fn gap_list(g: Seq<Seq<Seq<usize>>>) -> Seq<char> {
    seq!['['] + gap_operations(g) + seq![']']
}

/// The group command that `GapManager::construct_group_cmd` writes carries
/// the generator list, and that list, read by the generator parser
/// (`parse_generator_string`), gives back the generator with every element
/// one larger, GAP numbering elements from one. This holds for a generator
/// with at least one operation, none of them the identity (which is written
/// `()` and reads back as one empty cycle), whose elements are below
/// `usize::MAX`.
pub proof fn lemma_gap_list_round_trip(g: Seq<Seq<Seq<usize>>>)
    requires
        g.len() >= 1,
        forall|i: int| 0 <= i < g.len() ==> (#[trigger] g[i]).len() >= 1,
        elements_below_max(g),
    ensures
        group_cmd(g) == "g := Group("@ + gap_list(g)
            + ");; Print(Size(g), \"\\n\", StructureDescription(g));"@,
        parse_generator(gap_list(g)) == Some(shift_generator(g)),
{
    assert forall|i: int| 0 <= i < g.len() implies (#[trigger] g[i]).len() >= 1
        && operation_below_max(g[i]) by {
        assert forall|j: int| 0 <= j < g[i].len() implies cycle_below_max(#[trigger] g[i][j]) by {
            assert forall|k: int| 0 <= k < g[i][j].len() implies #[trigger] g[i][j][k] < usize::MAX by {
            }
        }
    }
    assert(generator_for_gap_list(g));
    lemma_operations_inner(g);
    let l = gap_list(g);
    assert(l[0] == '[');
    assert(l.last() == ']');
    assert(!is_ws('['));
    assert(!is_ws(']'));
    lemma_trim_plain(l);
    assert(l.subrange(1, l.len() - 1) =~= seq!['('] + operations_inner(g) + closing(true));
    lemma_parse_operations_text(g, true);
    reveal_strlit("g := Group([");
    reveal_strlit("g := Group(");
    reveal_strlit("]);; Print(Size(g), \"\\n\", StructureDescription(g));");
    reveal_strlit(");; Print(Size(g), \"\\n\", StructureDescription(g));");
    assert(group_cmd(g) =~= "g := Group("@ + gap_list(g)
        + ");; Print(Size(g), \"\\n\", StructureDescription(g));"@);
}

} // verus!
