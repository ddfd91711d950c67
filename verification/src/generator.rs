//! Permutation generators in GAP notation, such as `[(1,2)(3,4),(5,6)]`:
//! a list of operations, each a product of cycles of element indices.

use vstd::prelude::*;
use crate::text::{
    chars_of, parse_usize, parse_usize_spec, pieces, ranges_within, split_ranges, split_seq, trim,
    trim_bounds,
};

verus! {

/// `s` with every `(` and `)` removed.
pub open spec fn without_parens(s: Seq<char>) -> Seq<char>
    decreases s.len(),
{
    if s.len() == 0 {
        Seq::empty()
    } else {
        let r = without_parens(s.drop_last());
        if s.last() == '(' || s.last() == ')' {
            r
        } else {
            r.push(s.last())
        }
    }
}

/// The numbers of comma-separated fields, each trimmed, empty fields skipped;
/// `None` if some non-empty field is not a number.
pub open spec fn parse_numbers(fields: Seq<Seq<char>>) -> Option<Seq<usize>>
    decreases fields.len(),
{
    if fields.len() == 0 {
        Some(Seq::empty())
    } else {
        match parse_numbers(fields.drop_last()) {
            None => None,
            Some(v) => {
                let t = trim(fields.last());
                if t.len() == 0 {
                    Some(v)
                } else {
                    match parse_usize_spec(t) {
                        Some(x) => Some(v.push(x)),
                        None => None,
                    }
                }
            },
        }
    }
}

/// One cycle: the text between `)(` separators, parentheses dropped.
pub open spec fn parse_cycle(s: Seq<char>) -> Option<Seq<usize>> {
    let cleaned = without_parens(s);
    if cleaned.len() == 0 {
        Some(Seq::empty())
    } else {
        parse_numbers(split_seq(cleaned, seq![',']))
    }
}

pub open spec fn parse_cycles(parts: Seq<Seq<char>>) -> Option<Seq<Seq<usize>>>
    decreases parts.len(),
{
    if parts.len() == 0 {
        Some(Seq::empty())
    } else {
        match (parse_cycles(parts.drop_last()), parse_cycle(parts.last())) {
            (Some(a), Some(c)) => Some(a.push(c)),
            _ => None,
        }
    }
}

/// One operation: its cycles are separated by `)(`.
pub open spec fn parse_operation(s: Seq<char>) -> Option<Seq<Seq<usize>>> {
    parse_cycles(split_seq(s, seq![')', '(']))
}

pub open spec fn parse_operations(parts: Seq<Seq<char>>) -> Option<Seq<Seq<Seq<usize>>>>
    decreases parts.len(),
{
    if parts.len() == 0 {
        Some(Seq::empty())
    } else {
        match (parse_operations(parts.drop_last()), parse_operation(parts.last())) {
            (Some(a), Some(c)) => Some(a.push(c)),
            _ => None,
        }
    }
}

/// The generator that a string in GAP notation denotes: after trimming it is
/// `[`, the operations separated by `),(`, then `]`.
pub open spec fn parse_generator(s: Seq<char>) -> Option<Seq<Seq<Seq<usize>>>> {
    let t = trim(s);
    if t.len() >= 2 && t[0] == '[' && t.last() == ']' {
        parse_operations(split_seq(t.subrange(1, t.len() - 1), seq![')', ',', '(']))
    } else {
        None
    }
}

fn remove_parens(s: &[char], lo: usize, hi: usize) -> (r: Vec<char>)
    requires
        lo <= hi <= s@.len(),
    ensures
        r@ == without_parens(s@.subrange(lo as int, hi as int)),
{
    let mut r: Vec<char> = Vec::new();
    let mut i = lo;
    assert(s@.subrange(lo as int, lo as int) =~= Seq::<char>::empty());
    while i < hi
        invariant
            lo <= i <= hi <= s@.len(),
            r@ == without_parens(s@.subrange(lo as int, i as int)),
        decreases hi - i,
    {
        let c = s[i];
        proof {
            assert(s@.subrange(lo as int, i + 1).drop_last() =~= s@.subrange(lo as int, i as int));
            assert(s@.subrange(lo as int, i + 1).last() == c);
        }
        if c != '(' && c != ')' {
            r.push(c);
        }
        i = i + 1;
    }
    r
}

fn parse_cycle_exec(s: &[char], lo: usize, hi: usize) -> (r: Option<Vec<usize>>)
    requires
        lo <= hi <= s@.len(),
    ensures
        r is None <==> parse_cycle(s@.subrange(lo as int, hi as int)) is None,
        r matches Some(v) ==> parse_cycle(s@.subrange(lo as int, hi as int)) == Some(v@),
{
    let cleaned = remove_parens(s, lo, hi);
    if cleaned.len() == 0 {
        return Some(Vec::new());
    }
    let comma = vec![','];
    let fields = split_ranges(cleaned.as_slice(), 0, cleaned.len(), comma.as_slice());
    let ghost fs = split_seq(cleaned@, seq![',']);
    proof {
        assert(comma@ =~= seq![',']);
        assert(cleaned@.subrange(0, cleaned@.len() as int) =~= cleaned@);
    }
    let mut out: Vec<usize> = Vec::new();
    let mut k: usize = 0;
    while k < fields.len()
        invariant
            k <= fields@.len(),
            lo <= hi <= s@.len(),
            cleaned@.len() > 0,
            cleaned@ == without_parens(s@.subrange(lo as int, hi as int)),
            fs == split_seq(cleaned@, seq![',']),
            ranges_within(fields@, 0, cleaned@.len() as int),
            pieces(cleaned@, fields@) == fs,
            parse_numbers(fs.take(k as int)) == Some(out@),
        decreases fields.len() - k,
    {
        let (x0, y0) = fields[k];
        assert(ranges_within(fields@, 0, cleaned@.len() as int));
        assert(x0 <= y0 <= cleaned@.len()) by {
            assert(fields@[k as int] == (x0, y0));
        }
        let (x, y) = trim_bounds(cleaned.as_slice(), x0, y0);
        proof {
            assert(fs[k as int] == cleaned@.subrange(x0 as int, y0 as int));
            assert(fs.take(k + 1).drop_last() =~= fs.take(k as int));
            assert(fs.take(k + 1).last() == fs[k as int]);
        }
        if x < y {
            match parse_usize(cleaned.as_slice(), x, y) {
                Some(n) => {
                    out.push(n);
                },
                None => {
                    proof {
                        lemma_parse_numbers_none(fs, k as int + 1);
                    }
                    return None;
                },
            }
        }
        k = k + 1;
    }
    assert(fs.take(fields@.len() as int) =~= fs);
    Some(out)
}

/// Once a prefix of the fields fails to parse, the whole list fails.
proof fn lemma_parse_numbers_none(fs: Seq<Seq<char>>, k: int)
    requires
        0 <= k <= fs.len(),
        parse_numbers(fs.take(k)) is None,
    ensures
        parse_numbers(fs) is None,
    decreases fs.len() - k,
{
    if k < fs.len() {
        assert(fs.take(k + 1).drop_last() =~= fs.take(k));
        lemma_parse_numbers_none(fs, k + 1);
    } else {
        assert(fs.take(k) =~= fs);
    }
}

proof fn lemma_parse_cycles_none(fs: Seq<Seq<char>>, k: int)
    requires
        0 <= k <= fs.len(),
        parse_cycles(fs.take(k)) is None,
    ensures
        parse_cycles(fs) is None,
    decreases fs.len() - k,
{
    if k < fs.len() {
        assert(fs.take(k + 1).drop_last() =~= fs.take(k));
        lemma_parse_cycles_none(fs, k + 1);
    } else {
        assert(fs.take(k) =~= fs);
    }
}

proof fn lemma_parse_operations_none(fs: Seq<Seq<char>>, k: int)
    requires
        0 <= k <= fs.len(),
        parse_operations(fs.take(k)) is None,
    ensures
        parse_operations(fs) is None,
    decreases fs.len() - k,
{
    if k < fs.len() {
        assert(fs.take(k + 1).drop_last() =~= fs.take(k));
        lemma_parse_operations_none(fs, k + 1);
    } else {
        assert(fs.take(k) =~= fs);
    }
}

fn parse_operation_exec(s: &[char], lo: usize, hi: usize) -> (r: Option<Vec<Vec<usize>>>)
    requires
        lo <= hi <= s@.len(),
    ensures
        r is None <==> parse_operation(s@.subrange(lo as int, hi as int)) is None,
        r matches Some(v) ==> parse_operation(s@.subrange(lo as int, hi as int)) == Some(
            v.deep_view(),
        ),
{
    let sep = vec![')', '('];
    let parts = split_ranges(s, lo, hi, sep.as_slice());
    let ghost ps = split_seq(s@.subrange(lo as int, hi as int), seq![')', '(']);
    assert(sep@ =~= seq![')', '(']);
    let mut out: Vec<Vec<usize>> = Vec::new();
    let mut k: usize = 0;
    while k < parts.len()
        invariant
            k <= parts@.len(),
            lo <= hi <= s@.len(),
            ps == split_seq(s@.subrange(lo as int, hi as int), seq![')', '(']),
            ranges_within(parts@, lo as int, hi as int),
            pieces(s@, parts@) == ps,
            parse_cycles(ps.take(k as int)) == Some(out.deep_view()),
        decreases parts.len() - k,
    {
        let (x, y) = parts[k];
        assert(x <= y <= hi) by {
            assert(parts@[k as int] == (x, y));
        }
        proof {
            assert(ps[k as int] == s@.subrange(x as int, y as int));
            assert(ps.take(k + 1).drop_last() =~= ps.take(k as int));
            assert(ps.take(k + 1).last() == ps[k as int]);
        }
        match parse_cycle_exec(s, x, y) {
            Some(c) => {
                let ghost old_out = out.deep_view();
                out.push(c);
                assert(c.deep_view() =~= c@);
                assert(out.deep_view() =~= old_out.push(c@));
            },
            None => {
                proof {
                    lemma_parse_cycles_none(ps, k as int + 1);
                }
                return None;
            },
        }
        k = k + 1;
    }
    assert(ps.take(parts@.len() as int) =~= ps);
    Some(out)
}

/// Parses GAP generator notation like `[(1,2)(3,4),(5,6)]`.
/// Each operation is a list of cycles, each cycle a list of element indices.
pub fn parse_generator_string(generator_string: &str) -> (r: Option<Vec<Vec<Vec<usize>>>>)
    ensures
        r is None <==> parse_generator(generator_string@) is None,
        r matches Some(v) ==> parse_generator(generator_string@) == Some(v.deep_view()),
{
    let s = chars_of(generator_string);
    let (a, b) = trim_bounds(s.as_slice(), 0, s.len());
    let ghost t = trim(generator_string@);
    proof {
        assert(s@.subrange(0, s@.len() as int) =~= s@);
    }
    if b - a < 2 || s[a] != '[' || s[b - 1] != ']' {
        proof {
            if t.len() >= 2 {
                assert(t[0] == s@[a as int]);
                assert(t.last() == s@[b - 1]);
            }
        }
        return None;
    }
    let sep = vec![')', ',', '('];
    let parts = split_ranges(s.as_slice(), a + 1, b - 1, sep.as_slice());
    let ghost ps = split_seq(t.subrange(1, t.len() - 1), seq![')', ',', '(']);
    proof {
        assert(sep@ =~= seq![')', ',', '(']);
        assert(t.subrange(1, t.len() - 1) =~= s@.subrange(a + 1, b - 1));
        assert(t[0] == s@[a as int]);
        assert(t.last() == s@[b - 1]);
    }
    let mut out: Vec<Vec<Vec<usize>>> = Vec::new();
    let mut k: usize = 0;
    while k < parts.len()
        invariant
            k <= parts@.len(),
            a + 1 <= b - 1 <= s@.len(),
            t == trim(generator_string@),
            t.len() >= 2 && t[0] == '[' && t.last() == ']',
            ps == split_seq(t.subrange(1, t.len() - 1), seq![')', ',', '(']),
            ranges_within(parts@, a + 1, b - 1),
            pieces(s@, parts@) == ps,
            parse_operations(ps.take(k as int)) == Some(out.deep_view()),
        decreases parts.len() - k,
    {
        let (x, y) = parts[k];
        assert(x <= y <= b - 1) by {
            assert(parts@[k as int] == (x, y));
        }
        proof {
            assert(ps[k as int] == s@.subrange(x as int, y as int));
            assert(ps.take(k + 1).drop_last() =~= ps.take(k as int));
            assert(ps.take(k + 1).last() == ps[k as int]);
        }
        match parse_operation_exec(s.as_slice(), x, y) {
            Some(op) => {
                let ghost old_out = out.deep_view();
                out.push(op);
                assert(out.deep_view() =~= old_out.push(op.deep_view()));
            },
            None => {
                proof {
                    lemma_parse_operations_none(ps, k as int + 1);
                }
                return None;
            },
        }
        k = k + 1;
    }
    assert(ps.take(parts@.len() as int) =~= ps);
    Some(out)
}

// ---------------------------------------------------------------------------
// Operations on generators
// ---------------------------------------------------------------------------

/// Where a single cycle sends `x`, if `x` lies on it (its first occurrence).
pub open spec fn first_pos(c: Seq<usize>, x: usize) -> Option<int>
    decreases c.len(),
{
    if c.len() == 0 {
        None
    } else if c[0] == x {
        Some(0)
    } else {
        match first_pos(c.drop_first(), x) {
            Some(k) => Some(k + 1),
            None => None,
        }
    }
}

/// The image of `x` under an operation: the first cycle holding `x` sends it
/// to the element after it; an element on no cycle stays put.
pub open spec fn op_image(op: Seq<Seq<usize>>, x: usize) -> usize
    decreases op.len(),
{
    if op.len() == 0 {
        x
    } else {
        match first_pos(op[0], x) {
            Some(k) => op[0][(k + 1) % (op[0].len() as int)],
            None => op_image(op.drop_first(), x),
        }
    }
}

/// Two operations that move every element alike.
pub open spec fn same_permutation(a: Seq<Seq<usize>>, b: Seq<Seq<usize>>) -> bool {
    forall|x: usize| #[trigger] op_image(a, x) == op_image(b, x)
}

/// Each cycle of each operation reversed: the inverse operations.
pub open spec fn inverted(g: Seq<Seq<Seq<usize>>>) -> Seq<Seq<Seq<usize>>> {
    g.map_values(|op: Seq<Seq<usize>>| op.map_values(|c: Seq<usize>| c.reverse()))
}

/// The operations followed by their inverses.
pub open spec fn with_inverses(g: Seq<Seq<Seq<usize>>>) -> Seq<Seq<Seq<usize>>> {
    g + inverted(g)
}

/// The operations with every operation dropped that moves elements exactly as
/// an earlier kept one does.
pub open spec fn without_repeats(g: Seq<Seq<Seq<usize>>>) -> Seq<Seq<Seq<usize>>>
    decreases g.len(),
{
    if g.len() == 0 {
        Seq::empty()
    } else {
        let r = without_repeats(g.drop_last());
        if exists|j: int| 0 <= j < r.len() && same_permutation(#[trigger] r[j], g.last()) {
            r
        } else {
            r.push(g.last())
        }
    }
}

pub open spec fn on_some_cycle(op: Seq<Seq<usize>>, x: usize) -> bool {
    exists|i: int, k: int| 0 <= i < op.len() && 0 <= k < op[i].len() && #[trigger] op[i][k] == x
}

pub proof fn lemma_first_pos(c: Seq<usize>, x: usize)
    ensures
        first_pos(c, x) matches Some(k) ==> 0 <= k < c.len() && c[k] == x && forall|m: int|
            0 <= m < k ==> #[trigger] c[m] != x,
        first_pos(c, x) is None ==> forall|m: int| 0 <= m < c.len() ==> #[trigger] c[m] != x,
    decreases c.len(),
{
    if c.len() > 0 {
        lemma_first_pos(c.drop_first(), x);
        assert forall|m: int| 1 <= m < c.len() implies #[trigger] c[m] == c.drop_first()[m - 1] by {}
    }
}

pub proof fn lemma_op_image_off(op: Seq<Seq<usize>>, x: usize)
    requires
        !on_some_cycle(op, x),
    ensures
        op_image(op, x) == x,
    decreases op.len(),
{
    if op.len() > 0 {
        lemma_first_pos(op[0], x);
        if first_pos(op[0], x) is Some {
            let k = first_pos(op[0], x)->0;
            assert(op[0][k] == x);
        }
        assert(!on_some_cycle(op.drop_first(), x)) by {
            if on_some_cycle(op.drop_first(), x) {
                let (i, k) = choose|i: int, k: int|
                    0 <= i < op.drop_first().len() && 0 <= k < op.drop_first()[i].len()
                        && #[trigger] op.drop_first()[i][k] == x;
                assert(op[i + 1][k] == x);
            }
        }
        lemma_op_image_off(op.drop_first(), x);
    }
}

pub fn copy_cycle(c: &Vec<usize>) -> (r: Vec<usize>)
    ensures
        r@ == c@,
{
    let mut r: Vec<usize> = Vec::new();
    let mut i: usize = 0;
    while i < c.len()
        invariant
            i <= c@.len(),
            r@ == c@.take(i as int),
        decreases c.len() - i,
    {
        r.push(c[i]);
        i = i + 1;
        assert(r@ =~= c@.take(i as int));
    }
    assert(c@.take(c@.len() as int) =~= c@);
    r
}

pub fn copy_operation(op: &Vec<Vec<usize>>) -> (r: Vec<Vec<usize>>)
    ensures
        r.deep_view() == op.deep_view(),
{
    let mut r: Vec<Vec<usize>> = Vec::new();
    let mut i: usize = 0;
    while i < op.len()
        invariant
            i <= op@.len(),
            r.deep_view() == op.deep_view().take(i as int),
        decreases op.len() - i,
    {
        let c = copy_cycle(&op[i]);
        let ghost before = r.deep_view();
        r.push(c);
        proof {
            assert(c.deep_view() =~= c@);
            assert(op@[i as int].deep_view() =~= op@[i as int]@);
            assert(r.deep_view() =~= before.push(c.deep_view()));
            assert(op.deep_view()[i as int] == op@[i as int].deep_view());
            assert(op.deep_view().take(i + 1) =~= op.deep_view().take(i as int).push(
                op.deep_view()[i as int],
            ));
        }
        i = i + 1;
    }
    assert(op.deep_view().take(op@.len() as int) =~= op.deep_view());
    r
}

pub fn copy_generator(g: &[Vec<Vec<usize>>]) -> (r: Vec<Vec<Vec<usize>>>)
    ensures
        r.deep_view() == g.deep_view(),
{
    let mut r: Vec<Vec<Vec<usize>>> = Vec::new();
    let mut i: usize = 0;
    while i < g.len()
        invariant
            i <= g@.len(),
            r.deep_view() == g.deep_view().take(i as int),
        decreases g.len() - i,
    {
        let op = copy_operation(&g[i]);
        let ghost before = r.deep_view();
        r.push(op);
        proof {
            assert(r.deep_view() =~= before.push(op.deep_view()));
            assert(g.deep_view()[i as int] == g@[i as int].deep_view());
            assert(g.deep_view().take(i + 1) =~= g.deep_view().take(i as int).push(
                g.deep_view()[i as int],
            ));
        }
        i = i + 1;
    }
    assert(g.deep_view().take(g@.len() as int) =~= g.deep_view());
    r
}

fn reverse_cycle(c: &Vec<usize>) -> (r: Vec<usize>)
    ensures
        r@ == c@.reverse(),
{
    let mut r: Vec<usize> = Vec::new();
    let mut i: usize = c.len();
    while i > 0
        invariant
            i <= c@.len(),
            r@.len() == c@.len() - i,
            forall|k: int| 0 <= k < r@.len() ==> r@[k] == c@[c@.len() - 1 - k],
        decreases i,
    {
        i = i - 1;
        r.push(c[i]);
    }
    assert(r@ =~= c@.reverse());
    r
}

/// The operations followed by copies with every cycle reversed.
pub fn add_inverse_operations(g: &Vec<Vec<Vec<usize>>>) -> (r: Vec<Vec<Vec<usize>>>)
    ensures
        r.deep_view() == with_inverses(g.deep_view()),
{
    let mut r = copy_generator(g.as_slice());
    let mut i: usize = 0;
    let ghost base = r.deep_view();
    while i < g.len()
        invariant
            i <= g@.len(),
            base == g.deep_view(),
            r.deep_view() == base + inverted(g.deep_view()).take(i as int),
        decreases g.len() - i,
    {
        let op = &g[i];
        let mut inv: Vec<Vec<usize>> = Vec::new();
        let mut ci: usize = 0;
        while ci < op.len()
            invariant
                ci <= op@.len(),
                i < g@.len(),
                op == &g@[i as int],
                inv.deep_view() == inverted(g.deep_view())[i as int].take(ci as int),
            decreases op.len() - ci,
        {
            let c = reverse_cycle(&op[ci]);
            let ghost before = inv.deep_view();
            inv.push(c);
            proof {
                assert(c.deep_view() =~= c@);
                assert(g.deep_view()[i as int] == op.deep_view());
                assert(op.deep_view()[ci as int] == op@[ci as int].deep_view());
                assert(op@[ci as int].deep_view() =~= op@[ci as int]@);
                assert(inverted(g.deep_view())[i as int][ci as int] == op@[ci as int]@.reverse());
                assert(inv.deep_view() =~= before.push(c.deep_view()));
                assert(inv.deep_view() =~= inverted(g.deep_view())[i as int].take(ci + 1));
            }
            ci = ci + 1;
        }
        assert(inv.deep_view() =~= inverted(g.deep_view())[i as int]);
        let ghost before = r.deep_view();
        r.push(inv);
        proof {
            assert(r.deep_view() =~= before.push(inv.deep_view()));
            assert(r.deep_view() =~= base + inverted(g.deep_view()).take(i + 1));
        }
        i = i + 1;
    }
    assert(inverted(g.deep_view()).take(g@.len() as int) =~= inverted(g.deep_view()));
    r
}

/// Where an operation sends `x`.
pub fn image_of(op: &Vec<Vec<usize>>, x: usize) -> (r: usize)
    ensures
        r == op_image(op.deep_view(), x),
{
    let ghost o = op.deep_view();
    let mut i: usize = 0;
    assert(o.skip(0) =~= o);
    while i < op.len()
        invariant
            i <= op@.len(),
            o == op.deep_view(),
            op_image(o, x) == op_image(o.skip(i as int), x),
        decreases op.len() - i,
    {
        let c = &op[i];
        let ghost oi = o.skip(i as int);
        proof {
            assert(oi[0] == c@);
            assert(oi.drop_first() =~= o.skip(i + 1));
            lemma_first_pos(c@, x);
        }
        let mut k: usize = 0;
        while k < c.len()
            invariant
                k <= c@.len(),
                i < op@.len(),
                c == &op@[i as int],
                o == op.deep_view(),
                oi == o.skip(i as int),
                oi[0] == c@,
                op_image(o, x) == op_image(o.skip(i as int), x),
                forall|m: int| 0 <= m < k ==> #[trigger] c@[m] != x,
            decreases c.len() - k,
        {
            if c[k] == x {
                proof {
                    lemma_first_pos(c@, x);
                    if first_pos(c@, x) is Some {
                        let j = first_pos(c@, x)->0;
                        if j > k {
                            assert(c@[k as int] == x);
                        }
                    } else {
                        assert(c@[k as int] == x);
                    }
                    assert(first_pos(c@, x) == Some(k as int));
                    assert(oi.len() > 0);
                }
                return c[(k + 1) % c.len()];
            }
            k = k + 1;
        }
        proof {
            if first_pos(c@, x) is Some {
                let j = first_pos(c@, x)->0;
                assert(c@[j] == x);
            }
        }
        i = i + 1;
    }
    proof {
        assert(o.skip(op@.len() as int) =~= Seq::<Seq<usize>>::empty());
    }
    x
}

/// Whether two operations move every element alike.
pub fn is_same_permutation(a: &Vec<Vec<usize>>, b: &Vec<Vec<usize>>) -> (r: bool)
    ensures
        r == same_permutation(a.deep_view(), b.deep_view()),
{
    let ghost da = a.deep_view();
    let ghost db = b.deep_view();
    let mut i: usize = 0;
    while i < a.len()
        invariant
            i <= a@.len(),
            da == a.deep_view(),
            db == b.deep_view(),
            forall|p: int, k: int|
                0 <= p < i && 0 <= k < da[p].len() ==> op_image(da, #[trigger] da[p][k])
                    == op_image(db, da[p][k]),
        decreases a.len() - i,
    {
        let c = &a[i];
        let mut k: usize = 0;
        while k < c.len()
            invariant
                k <= c@.len(),
                i < a@.len(),
                c == &a@[i as int],
                da == a.deep_view(),
                db == b.deep_view(),
                forall|p: int, q: int|
                    0 <= p < i && 0 <= q < da[p].len() ==> op_image(da, #[trigger] da[p][q])
                        == op_image(db, da[p][q]),
                forall|q: int|
                    0 <= q < k ==> op_image(da, #[trigger] da[i as int][q]) == op_image(
                        db,
                        da[i as int][q],
                    ),
            decreases c.len() - k,
        {
            let x = c[k];
            assert(da[i as int][k as int] == x);
            if image_of(a, x) != image_of(b, x) {
                return false;
            }
            k = k + 1;
        }
        i = i + 1;
    }
    let mut i: usize = 0;
    while i < b.len()
        invariant
            i <= b@.len(),
            da == a.deep_view(),
            db == b.deep_view(),
            forall|p: int, k: int|
                0 <= p < a@.len() && 0 <= k < da[p].len() ==> op_image(da, #[trigger] da[p][k])
                    == op_image(db, da[p][k]),
            forall|p: int, k: int|
                0 <= p < i && 0 <= k < db[p].len() ==> op_image(da, #[trigger] db[p][k])
                    == op_image(db, db[p][k]),
        decreases b.len() - i,
    {
        let c = &b[i];
        let mut k: usize = 0;
        while k < c.len()
            invariant
                k <= c@.len(),
                i < b@.len(),
                c == &b@[i as int],
                da == a.deep_view(),
                db == b.deep_view(),
                forall|p: int, q: int|
                    0 <= p < i && 0 <= q < db[p].len() ==> op_image(da, #[trigger] db[p][q])
                        == op_image(db, db[p][q]),
                forall|q: int|
                    0 <= q < k ==> op_image(da, #[trigger] db[i as int][q]) == op_image(
                        db,
                        db[i as int][q],
                    ),
            decreases c.len() - k,
        {
            let x = c[k];
            assert(db[i as int][k as int] == x);
            if image_of(a, x) != image_of(b, x) {
                return false;
            }
            k = k + 1;
        }
        i = i + 1;
    }
    proof {
        assert forall|x: usize| #[trigger] op_image(da, x) == op_image(db, x) by {
            if on_some_cycle(da, x) {
                let (p, k) = choose|p: int, k: int|
                    0 <= p < da.len() && 0 <= k < da[p].len() && #[trigger] da[p][k] == x;
                assert(op_image(da, da[p][k]) == op_image(db, da[p][k]));
            } else if on_some_cycle(db, x) {
                let (p, k) = choose|p: int, k: int|
                    0 <= p < db.len() && 0 <= k < db[p].len() && #[trigger] db[p][k] == x;
                assert(op_image(da, db[p][k]) == op_image(db, db[p][k]));
            } else {
                lemma_op_image_off(da, x);
                lemma_op_image_off(db, x);
            }
        }
    }
    true
}

/// Drops every operation that moves elements exactly as an earlier kept one.
pub fn remove_isomorphic_operations(g: &Vec<Vec<Vec<usize>>>) -> (r: Vec<Vec<Vec<usize>>>)
    ensures
        r.deep_view() == without_repeats(g.deep_view()),
{
    let ghost dg = g.deep_view();
    let mut r: Vec<Vec<Vec<usize>>> = Vec::new();
    let mut i: usize = 0;
    while i < g.len()
        invariant
            i <= g@.len(),
            dg == g.deep_view(),
            r.deep_view() == without_repeats(dg.take(i as int)),
        decreases g.len() - i,
    {
        let op = &g[i];
        let ghost rv = r.deep_view();
        proof {
            assert(dg.take(i + 1).drop_last() =~= dg.take(i as int));
            assert(dg.take(i + 1).last() == op.deep_view());
        }
        let mut found = false;
        let mut j: usize = 0;
        while j < r.len()
            invariant
                j <= r@.len(),
                i < g@.len(),
                op == &g@[i as int],
                rv == r.deep_view(),
                found ==> exists|m: int| 0 <= m < rv.len() && same_permutation(
                    #[trigger] rv[m],
                    op.deep_view(),
                ),
                !found ==> forall|m: int| 0 <= m < j ==> !same_permutation(
                    #[trigger] rv[m],
                    op.deep_view(),
                ),
            decreases r.len() - j,
        {
            if !found && is_same_permutation(&r[j], op) {
                found = true;
                assert(same_permutation(rv[j as int], op.deep_view()));
            }
            j = j + 1;
        }
        if !found {
            let c = copy_operation(op);
            r.push(c);
            assert(r.deep_view() =~= rv.push(op.deep_view()));
        }
        i = i + 1;
    }
    assert(dg.take(g@.len() as int) =~= dg);
    r
}

} // verus!
