//! Axis definitions: named axes derived from other axes, the names they
//! refer to, renaming and deleting them, and the order in which they can
//! be resolved.
//!
//! The numbers that only the geometry reads (vector components, Euler
//! angles, a fixed axis angle, a pattern's angle range) are floating point
//! and stay with the application; a definition here keeps what the naming
//! and ordering logic reads.

use vstd::prelude::*;
use vstd::string::StringExecFns;
use crate::text::{
    dec, chars_of, string_of_range, parse_u32, parse_u32_spec, rfind_char, last_index_of,
    push_decimal, push_char,
};

verus! {

/// How an axis is derived.
pub enum DerivedAxis {
    /// A fixed vector.
    Vector,
    /// A unit vector given by pitch and yaw.
    Euler,
    /// A copy of another axis, possibly reversed.
    Copy { axis: String, invert: bool },
    /// The cross product of two axes.
    CrossProduct { a0: String, a1: String },
    /// The normalized average of several axes.
    Average { axes: Vec<String> },
    /// Two axes at the angle that the spherical law of cosines gives.
    CosineRule {
        p: u32,
        q: u32,
        n_a: u32,
        n_b: u32,
        a_axis: String,
        perpendicular_axis: String,
    },
    /// `n` copies of an axis turned about another one.
    CircularPattern { pattern_axis: String, target_axis: String, n: u32, invert_range: bool },
}

/// A flag as a number: 1 for set, 0 for clear.
pub open spec fn flag(b: bool) -> int {
    if b {
        1
    } else {
        0
    }
}

impl View for DerivedAxis {
    /// The variant's number, the names it refers to (in order), and its
    /// whole-number parameters.
    type V = (nat, Seq<Seq<char>>, Seq<int>);

    open spec fn view(&self) -> (nat, Seq<Seq<char>>, Seq<int>) {
        match self {
            DerivedAxis::Vector => (0, Seq::empty(), Seq::empty()),
            DerivedAxis::Euler => (1, Seq::empty(), Seq::empty()),
            DerivedAxis::Copy { axis, invert } => (2, seq![axis@], seq![flag(*invert)]),
            DerivedAxis::CrossProduct { a0, a1 } => (3, seq![a0@, a1@], Seq::empty()),
            DerivedAxis::Average { axes } => (4, axes.deep_view(), Seq::empty()),
            DerivedAxis::CosineRule { p, q, n_a, n_b, a_axis, perpendicular_axis } => (
                5,
                seq![a_axis@, perpendicular_axis@],
                seq![*p as int, *q as int, *n_a as int, *n_b as int],
            ),
            DerivedAxis::CircularPattern { pattern_axis, target_axis, n, invert_range } => (
                6,
                seq![pattern_axis@, target_axis@],
                seq![*n as int, flag(*invert_range)],
            ),
        }
    }
}

/// `1`, `2`, ..., `n`.
pub open spec fn numbered(n: nat) -> Seq<Seq<char>>
    decreases n,
{
    if n == 0 {
        Seq::empty()
    } else {
        numbered((n - 1) as nat).push(dec(n))
    }
}

/// The suffixes of the names of an axis's outputs when it has more than one:
/// `A`, `B` for a cosine rule, `1`..`n` for a circular pattern.
pub open spec fn suffixes_of(v: (nat, Seq<Seq<char>>, Seq<int>)) -> Seq<Seq<char>> {
    if v.0 == 5 {
        seq![seq!['A'], seq!['B']]
    } else if v.0 == 6 {
        numbered(v.2[0] as nat)
    } else {
        Seq::empty()
    }
}

/// `name` with each reference equal to `old` replaced by `new`.
pub open spec fn rename_in(refs: Seq<Seq<char>>, old: Seq<char>, new: Seq<char>) -> Seq<Seq<char>> {
    refs.map_values(|r: Seq<char>| if r == old { new } else { r })
}

fn string_copy(s: &String) -> (r: String)
    ensures
        r@ == s@,
{
    s.clone()
}

fn strings_copy(v: &Vec<String>) -> (r: Vec<String>)
    ensures
        r.deep_view() == v.deep_view(),
{
    let mut r: Vec<String> = Vec::new();
    let mut i: usize = 0;
    while i < v.len()
        invariant
            i <= v@.len(),
            r.deep_view() == v.deep_view().take(i as int),
        decreases v.len() - i,
    {
        let ghost before = r.deep_view();
        let c = string_copy(&v[i]);
        assert(c@ == v.deep_view()[i as int]);
        r.push(c);
        assert(r.deep_view() =~= before.push(c@));
        assert(r.deep_view() =~= v.deep_view().take(i + 1));
        i = i + 1;
    }
    assert(v.deep_view().take(v@.len() as int) =~= v.deep_view());
    r
}

fn string_from(s: &str) -> (r: String)
    ensures
        r@ == s@,
{
    String::from_str(s)
}

fn same_text(a: &String, b: &str) -> (r: bool)
    ensures
        r == (a@ == b@),
{
    let t = String::from_str(b);
    *a == t
}

/// `old` replaced by `new` if `s` is `old`.
fn renamed(s: &mut String, from: &str, to: &str)
    ensures
        final(s)@ == if old(s)@ == from@ {
            to@
        } else {
            old(s)@
        },
{
    if same_text(s, from) {
        *s = string_from(to);
    }
}

impl DerivedAxis {
    /// The names this axis refers to, in order.
    pub fn dependencies(&self) -> (r: Vec<String>)
        ensures
            r.deep_view() == self@.1,
    {
        match self {
            DerivedAxis::Vector => Vec::new(),
            DerivedAxis::Euler => Vec::new(),
            DerivedAxis::Copy { axis, .. } => {
                let mut r = Vec::new();
                r.push(string_copy(axis));
                assert(r.deep_view() =~= self@.1);
                r
            },
            DerivedAxis::CrossProduct { a0, a1 } => {
                let mut r = Vec::new();
                r.push(string_copy(a0));
                r.push(string_copy(a1));
                assert(r.deep_view() =~= self@.1);
                r
            },
            DerivedAxis::Average { axes } => strings_copy(axes),
            DerivedAxis::CosineRule { a_axis, perpendicular_axis, .. } => {
                let mut r = Vec::new();
                r.push(string_copy(a_axis));
                r.push(string_copy(perpendicular_axis));
                assert(r.deep_view() =~= self@.1);
                r
            },
            DerivedAxis::CircularPattern { pattern_axis, target_axis, .. } => {
                let mut r = Vec::new();
                r.push(string_copy(pattern_axis));
                r.push(string_copy(target_axis));
                assert(r.deep_view() =~= self@.1);
                r
            },
        }
    }

    /// The suffixes of the names of the axis's outputs when it produces more
    /// than one vector; empty when it produces one (named by the axis).
    pub fn output_suffixes(&self) -> (r: Vec<String>)
        ensures
            r.deep_view() == suffixes_of(self@),
    {
        match self {
            DerivedAxis::CosineRule { .. } => {
                let mut r = Vec::new();
                let mut a = String::new();
                push_char(&mut a, 'A');
                let mut b = String::new();
                push_char(&mut b, 'B');
                r.push(a);
                r.push(b);
                assert(r.deep_view() =~= suffixes_of(self@));
                r
            },
            DerivedAxis::CircularPattern { n, .. } => {
                let mut r: Vec<String> = Vec::new();
                let mut i: u32 = 0;
                while i < *n
                    invariant
                        i <= *n,
                        r.deep_view() == numbered(i as nat),
                    decreases *n - i,
                {
                    let mut s = String::new();
                    push_decimal(&mut s, (i + 1) as usize);
                    let ghost before = r.deep_view();
                    r.push(s);
                    assert(r.deep_view() =~= before.push(dec((i + 1) as nat)));
                    i = i + 1;
                }
                r
            },
            _ => Vec::new(),
        }
    }

    /// The variant's position in the list Vector, Euler, Copy, Cross
    /// Product, Average, Cosine Rule, Circular Pattern.
    pub fn variant_index(&self) -> (r: usize)
        ensures
            r == self@.0,
    {
        match self {
            DerivedAxis::Vector => 0,
            DerivedAxis::Euler => 1,
            DerivedAxis::Copy { .. } => 2,
            DerivedAxis::CrossProduct { .. } => 3,
            DerivedAxis::Average { .. } => 4,
            DerivedAxis::CosineRule { .. } => 5,
            DerivedAxis::CircularPattern { .. } => 6,
        }
    }

    /// A fresh axis of the variant at position `idx` (a vector past the
    /// end): references to the built-in axes and the usual orders.
    pub fn default_for_variant(idx: usize) -> (r: DerivedAxis)
        ensures
            r@ == default_view(idx as nat),
    {
        let x = string_from("X");
        let y = string_from("Y");
        let z = string_from("Z");
        proof {
            reveal_strlit("X");
            reveal_strlit("Y");
            reveal_strlit("Z");
            assert(x@ =~= seq!['X']);
            assert(y@ =~= seq!['Y']);
            assert(z@ =~= seq!['Z']);
        }
        match idx {
            0 => DerivedAxis::Vector,
            1 => DerivedAxis::Euler,
            2 => DerivedAxis::Copy { axis: x, invert: false },
            3 => DerivedAxis::CrossProduct { a0: x, a1: y },
            4 => {
                let mut axes = Vec::new();
                axes.push(x);
                axes.push(y);
                let r = DerivedAxis::Average { axes };
                assert(r@.1 =~= default_view(4).1);
                r
            },
            5 => DerivedAxis::CosineRule {
                p: 1,
                q: 5,
                n_a: 3,
                n_b: 3,
                a_axis: x,
                perpendicular_axis: y,
            },
            6 => DerivedAxis::CircularPattern {
                pattern_axis: z,
                target_axis: x,
                n: 3,
                invert_range: false,
            },
            _ => DerivedAxis::Vector,
        }
    }

    /// Replaces each reference to `old_name` by `new_name`.
    pub fn rename_references(&mut self, old_name: &str, new_name: &str)
        ensures
            final(self)@ == (
                old(self)@.0,
                rename_in(old(self)@.1, old_name@, new_name@),
                old(self)@.2,
            ),
    {
        match self {
            DerivedAxis::Copy { axis, .. } => {
                renamed(axis, old_name, new_name);
            },
            DerivedAxis::CrossProduct { a0, a1 } => {
                renamed(a0, old_name, new_name);
                renamed(a1, old_name, new_name);
            },
            DerivedAxis::Average { axes } => {
                let ghost before = axes.deep_view();
                let mut i: usize = 0;
                while i < axes.len()
                    invariant
                        i <= axes@.len(),
                        before.len() == axes@.len(),
                        forall|j: int| 0 <= j < i ==> #[trigger] axes.deep_view()[j] == (
                        if before[j] == old_name@ {
                            new_name@
                        } else {
                            before[j]
                        }),
                        forall|j: int| i <= j < axes@.len() ==> #[trigger] axes.deep_view()[j]
                            == before[j],
                    decreases axes.len() - i,
                {
                    let ghost prev = axes.deep_view();
                    let mut s = String::new();
                    std::mem::swap(&mut s, &mut axes[i]);
                    assert(s@ == prev[i as int]);
                    renamed(&mut s, old_name, new_name);
                    let ghost sv = s@;
                    axes.set(i, s);
                    assert(axes.deep_view() =~= prev.update(i as int, sv));
                    i = i + 1;
                }
                assert(axes.deep_view() =~= rename_in(before, old_name@, new_name@));
            },
            DerivedAxis::CosineRule { a_axis, perpendicular_axis, .. } => {
                renamed(a_axis, old_name, new_name);
                renamed(perpendicular_axis, old_name, new_name);
            },
            DerivedAxis::CircularPattern { pattern_axis, target_axis, .. } => {
                renamed(pattern_axis, old_name, new_name);
                renamed(target_axis, old_name, new_name);
            },
            _ => {},
        }
        proof {
            assert(final(self)@.1 =~= rename_in(old(self)@.1, old_name@, new_name@));
        }
    }
}

/// What `default_for_variant` gives for each position.
pub open spec fn default_view(idx: nat) -> (nat, Seq<Seq<char>>, Seq<int>) {
    let x = seq!['X'];
    let y = seq!['Y'];
    let z = seq!['Z'];
    if idx == 1 {
        (1, Seq::empty(), Seq::empty())
    } else if idx == 2 {
        (2, seq![x], seq![0])
    } else if idx == 3 {
        (3, seq![x, y], Seq::empty())
    } else if idx == 4 {
        (4, seq![x, y], Seq::empty())
    } else if idx == 5 {
        (5, seq![x, y], seq![1, 5, 3, 3])
    } else if idx == 6 {
        (6, seq![z, x], seq![3, 0])
    } else {
        (0, Seq::empty(), Seq::empty())
    }
}

// ---------------------------------------------------------------------------
// Sub-indexed names
// ---------------------------------------------------------------------------

/// `name` without a trailing `_` and sub-index (a number, `A` or `B`), the
/// base name of one output of a multi-output axis.
pub open spec fn strip_sub_index_spec(name: Seq<char>) -> Seq<char> {
    match last_index_of(name, '_') {
        Some(k) => {
            let suffix = name.subrange(k + 1, name.len() as int);
            if parse_u32_spec(suffix) is Some || suffix == seq!['A'] || suffix == seq!['B'] {
                name.take(k)
            } else {
                name
            }
        },
        None => name,
    }
}

/// Strips a sub-index suffix: `Trapentrix_A` gives `Trapentrix`,
/// `Pattern_1` gives `Pattern`, `X` stays `X`.
pub fn strip_sub_index(name: &str) -> (r: String)
    ensures
        r@ == strip_sub_index_spec(name@),
{
    let cs = chars_of(name);
    match rfind_char(&cs, '_') {
        Some(k) => {
            let n = cs.len();
            let is_number = parse_u32(&cs, k + 1, n).is_some();
            let one = n - k == 2;
            let is_letter = one && (cs[k + 1] == 'A' || cs[k + 1] == 'B');
            proof {
                let suffix = cs@.subrange(k + 1, n as int);
                if one {
                    assert(suffix =~= seq![cs@[k + 1]]);
                    assert(suffix == seq!['A'] <==> cs@[k + 1] == 'A');
                    assert(suffix == seq!['B'] <==> cs@[k + 1] == 'B');
                } else {
                    assert(suffix.len() != 1);
                }
            }
            if is_number || is_letter {
                string_of_range(&cs, 0, k)
            } else {
                string_of_range(&cs, 0, n)
            }
        },
        None => string_of_range(&cs, 0, cs.len()),
    }
}


// ---------------------------------------------------------------------------
// The set of definitions
// ---------------------------------------------------------------------------

/// A named axis definition.
pub struct AxisDefinition {
    pub name: String,
    pub axis: DerivedAxis,
}

/// The user's axis definitions in insertion order, the axes shown, and,
/// for each name resolved so far, how many vectors it gave (none when its
/// resolution failed).
pub struct AxisDefinitions {
    pub definitions: Vec<AxisDefinition>,
    pub visible_axes: Vec<String>,
    pub resolved: Vec<(String, Option<usize>)>,
}

pub open spec fn is_builtin(name: Seq<char>) -> bool {
    name == seq!['X'] || name == seq!['Y'] || name == seq!['Z']
}

/// The first position of `x` in `s`.
pub open spec fn first_index_of(s: Seq<Seq<char>>, x: Seq<char>) -> Option<int> {
    if s.contains(x) {
        Some(choose|k: int| 0 <= k < s.len() && s[k] == x && forall|j: int| 0 <= j < k ==> s[j] != x)
    } else {
        None
    }
}

/// A name that occurs has a first occurrence.
pub proof fn lemma_first_index(s: Seq<Seq<char>>, x: Seq<char>)
    requires
        s.contains(x),
    ensures
        first_index_of(s, x) matches Some(k) && 0 <= k < s.len() && s[k] == x && forall|j: int|
            0 <= j < k ==> s[j] != x,
    decreases s.len(),
{
    if s[0] == x {
        assert(0 <= 0 < s.len() && s[0] == x && forall|j: int| 0 <= j < 0 ==> s[j] != x);
    } else {
        let t = s.drop_first();
        let i = choose|i: int| 0 <= i < s.len() && s[i] == x;
        assert(t[i - 1] == x);
        lemma_first_index(t, x);
        let k = first_index_of(t, x).unwrap();
        assert(s[k + 1] == x);
        assert forall|j: int| 0 <= j < k + 1 implies s[j] != x by {
            if j > 0 {
                assert(s[j] == t[j - 1]);
            }
        }
    }
}

/// `base_suffix`.
pub open spec fn sub_name(base: Seq<char>, suffix: Seq<char>) -> Seq<char> {
    base + seq!['_'] + suffix
}

impl AxisDefinitions {
    /// The definitions' names in order.
    pub open spec fn names(&self) -> Seq<Seq<char>> {
        self.definitions@.map_values(|d: AxisDefinition| d.name@)
    }

    /// The definitions' axes in order.
    pub open spec fn axes(&self) -> Seq<(nat, Seq<Seq<char>>, Seq<int>)> {
        self.definitions@.map_values(|d: AxisDefinition| d.axis@)
    }

    /// The axes shown.
    pub open spec fn visible(&self) -> Set<Seq<char>> {
        self.visible_axes.deep_view().to_set()
    }

    /// The names whose resolution is recorded.
    pub open spec fn resolved_keys(&self) -> Seq<Seq<char>> {
        self.resolved@.map_values(|e: (String, Option<usize>)| e.0@)
    }

    /// The outcome recorded for `name`: how many vectors it resolved to, or
    /// none when its resolution failed.
    pub open spec fn resolution(&self, name: Seq<char>) -> Option<Option<usize>> {
        let keys = self.resolved_keys();
        match first_index_of(keys, name) {
            Some(k) => Some(self.resolved@[k].1),
            None => None,
        }
    }

    /// The axis of the first definition named `name`.
    pub open spec fn definition_of(&self, name: Seq<char>) -> Option<(nat, Seq<Seq<char>>, Seq<int>)> {
        match first_index_of(self.names(), name) {
            Some(k) => Some(self.axes()[k]),
            None => None,
        }
    }

    /// No definitions, nothing shown, nothing resolved.
    pub fn new() -> (r: AxisDefinitions)
        ensures
            r.definitions@.len() == 0,
            r.visible_axes@.len() == 0,
            r.resolved@.len() == 0,
    {
        AxisDefinitions { definitions: Vec::new(), visible_axes: Vec::new(), resolved: Vec::new() }
    }

    /// Whether some definition is named `name`.
    pub fn contains_definition(&self, name: &str) -> (r: bool)
        ensures
            r == self.names().contains(name@),
    {
        match self.position_of(name) {
            Some(_) => true,
            None => false,
        }
    }

    /// The position of the first definition named `name`.
    pub fn position_of(&self, name: &str) -> (r: Option<usize>)
        ensures
            match r {
                Some(k) => first_index_of(self.names(), name@) == Some(k as int),
                None => first_index_of(self.names(), name@) is None,
            },
            r is Some <==> self.names().contains(name@),
            r matches Some(k) ==> k < self.definitions@.len(),
    {
        let mut k: usize = 0;
        while k < self.definitions.len()
            invariant
                k <= self.definitions@.len(),
                forall|j: int| 0 <= j < k ==> self.names()[j] != name@,
            decreases self.definitions.len() - k,
        {
            if same_text(&self.definitions[k].name, name) {
                proof {
                    assert(self.names()[k as int] == name@);
                    let c = choose|c: int| 0 <= c < self.names().len() && self.names()[c] == name@
                        && forall|j: int| 0 <= j < c ==> self.names()[j] != name@;
                    if c < k {
                    } else if c > k {
                        assert(self.names()[k as int] != name@);
                    }
                }
                return Some(k);
            }
            k = k + 1;
        }
        None
    }

    /// The definitions' names in order.
    pub fn definitions_keys(&self) -> (r: Vec<String>)
        ensures
            r.deep_view() == self.names(),
    {
        let mut r: Vec<String> = Vec::new();
        let mut i: usize = 0;
        while i < self.definitions.len()
            invariant
                i <= self.definitions@.len(),
                r.deep_view() == self.names().take(i as int),
            decreases self.definitions.len() - i,
        {
            let c = string_copy(&self.definitions[i].name);
            let ghost before = r.deep_view();
            r.push(c);
            assert(r.deep_view() =~= before.push(c@));
            assert(r.deep_view() =~= self.names().take(i + 1));
            i = i + 1;
        }
        assert(self.names().take(self.definitions@.len() as int) =~= self.names());
        r
    }

    /// The axis of the first definition named `name`.
    pub fn get_definition(&self, name: &str) -> (r: Option<&DerivedAxis>)
        ensures
            match r {
                Some(a) => self.definition_of(name@) == Some(a@),
                None => self.definition_of(name@) is None,
            },
    {
        match self.position_of(name) {
            Some(k) => {
                assert(self.axes()[k as int] == self.definitions@[k as int].axis@);
                Some(&self.definitions[k].axis)
            },
            None => None,
        }
    }

    /// The names of the other definitions that refer to `target_name` or to
    /// one of its outputs, in order.
    pub fn find_dependents(&self, target_name: &str) -> (r: Vec<String>)
        ensures
            r.deep_view() == dependents_upto(self.names(), self.axes(), target_name@, self.names().len()),
    {
        let mut result: Vec<String> = Vec::new();
        let mut i: usize = 0;
        while i < self.definitions.len()
            invariant
                i <= self.definitions@.len(),
                result.deep_view() == dependents_upto(self.names(), self.axes(), target_name@, i as nat),
            decreases self.definitions.len() - i,
        {
            let d = &self.definitions[i];
            assert(self.names()[i as int] == d.name@ && self.axes()[i as int] == d.axis@);
            if !same_text(&d.name, target_name) {
                let deps = d.axis.dependencies();
                let mut hit = false;
                let mut k: usize = 0;
                while k < deps.len()
                    invariant
                        k <= deps@.len(),
                        deps.deep_view() == d.axis@.1,
                        hit == exists|j: int| 0 <= j < k && strip_sub_index_spec(#[trigger] deps.deep_view()[j]) == target_name@,
                    decreases deps.len() - k,
                {
                    let base = strip_sub_index(deps[k].as_str());
                    assert(deps.deep_view()[k as int] == deps@[k as int]@);
                    if same_text(&base, target_name) {
                        hit = true;
                    }
                    k = k + 1;
                }
                if hit {
                    let ghost before = result.deep_view();
                    let c = string_copy(&d.name);
                    result.push(c);
                    assert(result.deep_view() =~= before.push(c@));
                }
            }
            i = i + 1;
        }
        result
    }

    /// Removes every definition named `name` and stops showing it.
    pub fn delete(&mut self, name: &str)
        ensures
            final(self).definitions@ == old(self).definitions@.filter(|d: AxisDefinition| d.name@ != name@),
            final(self).visible() == old(self).visible().remove(name@),
            final(self).resolved@ == old(self).resolved@,
    {
        let ghost defs = self.definitions@;
        let ghost pred = |d: AxisDefinition| d.name@ != name@;
        let mut rest: Vec<AxisDefinition> = Vec::new();
        std::mem::swap(&mut rest, &mut self.definitions);
        let mut kept: Vec<AxisDefinition> = Vec::new();
        let n = rest.len();
        let mut i: usize = 0;
        assert(defs.take(0) =~= Seq::<AxisDefinition>::empty());
        while i < n
            invariant
                i <= n,
                n == defs.len(),
                rest@ == defs.subrange(i as int, n as int),
                kept@ == defs.take(i as int).filter(pred),
                pred == (|d: AxisDefinition| d.name@ != name@),
            decreases n - i,
        {
            let d = rest.remove(0);
            assert(d == defs[i as int]);
            assert(defs.take(i + 1) =~= defs.take(i as int).push(d));
            proof {
                defs.take(i as int).lemma_filter_push(d, pred);
            }
            if !same_text(&d.name, name) {
                kept.push(d);
            }
            assert(rest@ =~= defs.subrange(i + 1, n as int));
            i = i + 1;
        }
        assert(defs.take(n as int) =~= defs);
        self.definitions = kept;
        let mut shown: Vec<String> = Vec::new();
        std::mem::swap(&mut shown, &mut self.visible_axes);
        self.visible_axes = without(shown, name);
    }
}

/// `v` without the entries equal to `name`.
fn without(v: Vec<String>, name: &str) -> (r: Vec<String>)
    ensures
        r.deep_view() == v.deep_view().filter(|s: Seq<char>| s != name@),
        r.deep_view().to_set() == v.deep_view().to_set().remove(name@),
{
    let ghost all = v.deep_view();
    let ghost pred = |s: Seq<char>| s != name@;
    let mut rest = v;
    let n = rest.len();
    let mut kept: Vec<String> = Vec::new();
    let mut i: usize = 0;
    assert(all.take(0) =~= Seq::<Seq<char>>::empty());
    while i < n
        invariant
            i <= n,
            n == all.len(),
            rest.deep_view() == all.subrange(i as int, n as int),
            rest@.len() == n - i,
            kept.deep_view() == all.take(i as int).filter(pred),
            pred == (|s: Seq<char>| s != name@),
        decreases n - i,
    {
        let ghost before = rest.deep_view();
        let ghost old_rest = rest@;
        assert(before[0] == rest@[0]@);
        let x = rest.remove(0);
        assert forall|j: int| 0 <= j < rest@.len() implies #[trigger] rest.deep_view()[j] == before[j + 1] by {
            assert(rest@[j] == old_rest[j + 1]);
            assert(before[j + 1] == old_rest[j + 1]@);
        }
        assert(x@ == before[0]);
        assert(x@ == all[i as int]);
        assert(all.take(i + 1) =~= all.take(i as int).push(x@));
        proof {
            all.take(i as int).lemma_filter_push(x@, pred);
        }
        if !same_text(&x, name) {
            let ghost kb = kept.deep_view();
            kept.push(x);
            assert(kept.deep_view() =~= kb.push(all[i as int]));
        }
        assert(rest.deep_view() =~= all.subrange(i + 1, n as int));
        i = i + 1;
    }
    assert(all.take(n as int) =~= all);
    proof {
        let f = all.filter(pred);
        assert forall|x: Seq<char>| f.to_set().contains(x) <==> all.to_set().remove(name@).contains(x) by {
            if f.contains(x) {
                all.lemma_filter_contains_rev(pred, x);
                let k = choose|k: int| 0 <= k < f.len() && f[k] == x;
                all.lemma_filter_pred(pred, k);
            }
            if all.contains(x) && x != name@ {
                let k = choose|k: int| 0 <= k < all.len() && all[k] == x;
                all.lemma_filter_contains(pred, k);
            }
        }
        assert(f.to_set() =~= all.to_set().remove(name@));
    }
    kept
}

/// The names, among the first `i` definitions, of those other than
/// `target` with a reference whose base name is `target`.
pub open spec fn dependents_upto(
    names: Seq<Seq<char>>,
    axes: Seq<(nat, Seq<Seq<char>>, Seq<int>)>,
    target: Seq<char>,
    i: nat,
) -> Seq<Seq<char>>
    decreases i,
{
    if i == 0 {
        Seq::empty()
    } else {
        let prev = dependents_upto(names, axes, target, (i - 1) as nat);
        let k = i - 1;
        if names[k] != target && exists|j: int| 0 <= j < axes[k].1.len() && strip_sub_index_spec(
            #[trigger] axes[k].1[j],
        ) == target {
            prev.push(names[k])
        } else {
            prev
        }
    }
}


/// `Axis `.
pub open spec fn axis_prefix() -> Seq<char> {
    seq!['A', 'x', 'i', 's', ' ']
}

/// The number of a name `Axis N`.
pub open spec fn axis_number(name: Seq<char>) -> Option<u32> {
    if name.len() >= 5 && name.take(5) == axis_prefix() {
        parse_u32_spec(name.skip(5))
    } else {
        None
    }
}

/// The largest number among the names `Axis N` (zero when there is none).
pub open spec fn max_axis_number(names: Seq<Seq<char>>) -> nat
    decreases names.len(),
{
    if names.len() == 0 {
        0
    } else {
        let prev = max_axis_number(names.drop_last());
        match axis_number(names.last()) {
            Some(n) => if n > prev {
                n as nat
            } else {
                prev
            },
            None => prev,
        }
    }
}

/// `desired i`.
pub open spec fn numbered_name(desired: Seq<char>, i: nat) -> Seq<char> {
    desired + seq![' '] + dec(i)
}

/// Neither a built-in axis nor the name of a definition.
pub open spec fn is_free(names: Seq<Seq<char>>, name: Seq<char>) -> bool {
    !is_builtin(name) && !names.contains(name)
}

/// The base name and sub-index of `name` split at its last `_`.
pub open spec fn split_sub(name: Seq<char>) -> Option<(Seq<char>, Seq<char>)> {
    match last_index_of(name, '_') {
        Some(k) => Some((name.take(k), name.skip(k + 1))),
        None => None,
    }
}

/// The order of symmetry that a cosine rule definition gives the output
/// `name` (`n_a` for its `_A` output, `n_b` for its `_B` one).
#[verifier::opaque]
pub open spec fn cosine_rule_n(defs: AxisDefinitions, name: Seq<char>) -> Option<u32> {
    match split_sub(name) {
        Some(parts) => match defs.definition_of(parts.0) {
            Some(v) => if v.0 == 5 && parts.1 == seq!['A'] {
                Some(v.2[2] as u32)
            } else if v.0 == 5 && parts.1 == seq!['B'] {
                Some(v.2[3] as u32)
            } else {
                None
            },
            None => None,
        },
        None => None,
    }
}

/// The references of an axis after renaming `old` to `new` and then each
/// output `old_s` to `new_s`, for the suffixes `s` in order.
pub open spec fn rename_chain(
    refs: Seq<Seq<char>>,
    old: Seq<char>,
    new: Seq<char>,
    sufs: Seq<Seq<char>>,
) -> Seq<Seq<char>>
    decreases sufs.len(),
{
    if sufs.len() == 0 {
        rename_in(refs, old, new)
    } else {
        rename_in(
            rename_chain(refs, old, new, sufs.drop_last()),
            sub_name(old, sufs.last()),
            sub_name(new, sufs.last()),
        )
    }
}

proof fn lemma_unique_count(names: Seq<Seq<char>>, desired: Seq<char>, i: nat)
    requires
        i >= 2,
        forall|j: nat| 2 <= j < i ==> !is_free(names, #[trigger] numbered_name(desired, j)),
    ensures
        i - 2 <= names.len(),
{
    let cands = Seq::new((i - 2) as nat, |k: int| numbered_name(desired, (k + 2) as nat));
    assert(cands.no_duplicates()) by {
        assert forall|a: int, b: int| 0 <= a < cands.len() && 0 <= b < cands.len() && a != b implies cands[a] != cands[b] by {
            if cands[a] == cands[b] {
                let da = dec((a + 2) as nat);
                let db = dec((b + 2) as nat);
                let p = desired + seq![' '];
                assert(cands[a] == p + da && cands[b] == p + db);
                assert(da =~= cands[a].skip(p.len() as int));
                assert(db =~= cands[b].skip(p.len() as int));
                crate::text::lemma_dec_injective((a + 2) as nat, (b + 2) as nat);
            }
        }
    }
    cands.unique_seq_to_set();
    names.lemma_cardinality_of_set();
    assert forall|x: Seq<char>| cands.to_set().contains(x) implies names.to_set().contains(x) by {
        let k = choose|k: int| 0 <= k < cands.len() && cands[k] == x;
        let j = (k + 2) as nat;
        assert(cands[k] == numbered_name(desired, j));
        assert(!is_free(names, numbered_name(desired, j)));
        crate::text::lemma_dec_value(j);
        assert(numbered_name(desired, j).len() >= 2);
    }
    vstd::set_lib::lemma_len_subset(cands.to_set(), names.to_set());
}

impl AxisDefinitions {
    /// The order of symmetry that matches the output `axis_name` of a cosine
    /// rule definition: its `n_a` for `NAME_A`, its `n_b` for `NAME_B`.
    pub fn get_cosine_rule_n_for_axis(&self, axis_name: &str) -> (r: Option<u32>)
        ensures
            r == cosine_rule_n(*self, axis_name@),
    {
        reveal(cosine_rule_n);
        let cs = chars_of(axis_name);
        match rfind_char(&cs, '_') {
            Some(pos) => {
                let base = string_of_range(&cs, 0, pos);
                assert(base@ =~= cs@.take(pos as int));
                let n = cs.len();
                let is_a = n - pos == 2 && cs[pos + 1] == 'A';
                let is_b = n - pos == 2 && cs[pos + 1] == 'B';
                proof {
                    let suffix = cs@.skip(pos + 1);
                    if n - pos == 2 {
                        assert(suffix =~= seq![cs@[pos + 1]]);
                        if suffix == seq!['A'] {
                            assert(suffix[0] == 'A');
                        }
                        if suffix == seq!['B'] {
                            assert(suffix[0] == 'B');
                        }
                        if cs@[pos + 1] == 'A' {
                            assert(suffix =~= seq!['A']);
                        }
                        if cs@[pos + 1] == 'B' {
                            assert(suffix =~= seq!['B']);
                        }
                    } else {
                        assert(suffix.len() != 1);
                        assert(seq!['A'].len() == 1 && seq!['B'].len() == 1);
                    }
                    assert(is_a == (suffix == seq!['A']));
                    assert(is_b == (suffix == seq!['B']));
                }
                match self.get_definition(base.as_str()) {
                    Some(DerivedAxis::CosineRule { n_a, n_b, .. }) => {
                        if is_a {
                            Some(*n_a)
                        } else if is_b {
                            Some(*n_b)
                        } else {
                            None
                        }
                    },
                    _ => None,
                }
            },
            None => None,
        }
    }

    /// `Axis N` for one more than the largest number among the names of that
    /// form.
    pub fn generate_name(&self) -> (r: String)
        requires
            max_axis_number(self.names()) < u32::MAX,
        ensures
            r@ == axis_prefix() + dec(max_axis_number(self.names()) + 1),
    {
        let ghost names = self.names();
        let mut max_n: u32 = 0;
        let mut i: usize = 0;
        while i < self.definitions.len()
            invariant
                i <= self.definitions@.len(),
                names == self.names(),
                max_n == max_axis_number(names.take(i as int)),
            decreases self.definitions.len() - i,
        {
            let cs = chars_of(self.definitions[i].name.as_str());
            assert(cs@ == names[i as int]);
            assert(names.take(i + 1).drop_last() =~= names.take(i as int));
            let n = cs.len();
            let mut found: Option<u32> = None;
            if n >= 5 && cs[0] == 'A' && cs[1] == 'x' && cs[2] == 'i' && cs[3] == 's' && cs[4] == ' ' {
                assert(cs@.take(5) =~= axis_prefix());
                assert(cs@.subrange(5, n as int) =~= cs@.skip(5));
                found = parse_u32(&cs, 5, n);
            } else {
                proof {
                    if n >= 5 {
                        if cs@.take(5) == axis_prefix() {
                            assert(cs@.take(5)[0] == 'A' && cs@.take(5)[1] == 'x' && cs@.take(5)[2] == 'i');
                            assert(cs@.take(5)[3] == 's' && cs@.take(5)[4] == ' ');
                        }
                    }
                }
            }
            assert(found == axis_number(names[i as int]));
            if let Some(v) = found {
                if v > max_n {
                    max_n = v;
                }
            }
            i = i + 1;
        }
        assert(names.take(names.len() as int) =~= names);
        let mut r = String::from_str("Axis ");
        proof {
            reveal_strlit("Axis ");
            assert(r@ =~= axis_prefix());
        }
        push_decimal(&mut r, (max_n + 1) as usize);
        r
    }

    /// `desired` if it is free, otherwise `desired i` for the least `i >= 2`
    /// that is free.
    pub fn make_unique_name(&self, desired: &str) -> (r: String)
        requires
            self.definitions@.len() < u32::MAX - 2,
        ensures
            is_free(self.names(), r@),
            is_free(self.names(), desired@) ==> r@ == desired@,
            !is_free(self.names(), desired@) ==> exists|i: nat| 2 <= i && r@ == numbered_name(desired@, i)
                && forall|j: nat| 2 <= j < i ==> !is_free(self.names(), #[trigger] numbered_name(desired@, j)),
    {
        let ghost names = self.names();
        let x = string_from("X");
        let y = string_from("Y");
        let z = string_from("Z");
        proof {
            reveal_strlit("X");
            reveal_strlit("Y");
            reveal_strlit("Z");
            assert(x@ =~= seq!['X']);
            assert(y@ =~= seq!['Y']);
            assert(z@ =~= seq!['Z']);
        }
        let d = string_from(desired);
        if !(d == x || d == y || d == z) && !self.contains_definition(desired) {
            return d;
        }
        let mut i: u32 = 2;
        loop
            invariant
                2 <= i,
                i - 2 <= names.len(),
                names.len() < u32::MAX - 2,
                names == self.names(),
                x@ == seq!['X'] && y@ == seq!['Y'] && z@ == seq!['Z'],
                !is_free(names, desired@),
                forall|j: nat| 2 <= j < i ==> !is_free(names, #[trigger] numbered_name(desired@, j)),
            decreases names.len() + 2 - i,
        {
            let mut candidate = string_from(desired);
            push_char(&mut candidate, ' ');
            push_decimal(&mut candidate, i as usize);
            assert(candidate@ =~= numbered_name(desired@, i as nat));
            let taken = candidate == x || candidate == y || candidate == z || self.contains_definition(
                candidate.as_str(),
            );
            assert(taken == !is_free(names, numbered_name(desired@, i as nat)));
            if !taken {
                assert(2 <= i as nat && candidate@ == numbered_name(desired@, i as nat));
                return candidate;
            }
            proof {
                lemma_unique_count(names, desired@, (i + 1) as nat);
            }
            i = i + 1;
        }
    }
}


/// The suffixes whose outputs follow a rename: those of the (first)
/// definition that carries the new name afterwards.
pub open spec fn rename_suffixes(
    names: Seq<Seq<char>>,
    axes: Seq<(nat, Seq<Seq<char>>, Seq<int>)>,
    old: Seq<char>,
    new: Seq<char>,
) -> Seq<Seq<char>> {
    match first_index_of(rename_in(names, old, new), new) {
        Some(k) => suffixes_of(axes[k]),
        None => Seq::empty(),
    }
}

proof fn lemma_push_to_set(s: Seq<Seq<char>>, x: Seq<char>)
    ensures
        s.push(x).to_set() == s.to_set().insert(x),
{
    assert forall|y: Seq<char>| s.push(x).contains(y) <==> (s.contains(y) || y == x) by {
        if s.push(x).contains(y) {
            let k = choose|k: int| 0 <= k < s.push(x).len() && s.push(x)[k] == y;
            if k < s.len() {
                assert(s[k] == y);
            }
        }
        if s.contains(y) {
            let k = choose|k: int| 0 <= k < s.len() && s[k] == y;
            assert(s.push(x)[k] == y);
        }
        if y == x {
            assert(s.push(x)[s.len() as int] == y);
        }
    }
    assert forall|y: Seq<char>| #[trigger] s.push(x).to_set().contains(y) == s.to_set().insert(x).contains(y) by {
        assert(s.push(x).to_set().contains(y) == s.push(x).contains(y));
        assert(s.to_set().contains(y) == s.contains(y));
    }
    assert(s.push(x).to_set() =~= s.to_set().insert(x));
}

/// An axis view with its references renamed along a chain.
pub open spec fn renamed_view(
    v: (nat, Seq<Seq<char>>, Seq<int>),
    old: Seq<char>,
    new: Seq<char>,
    sufs: Seq<Seq<char>>,
) -> (nat, Seq<Seq<char>>, Seq<int>) {
    (v.0, rename_chain(v.1, old, new, sufs), v.2)
}

/// After a rename, the renamed definition has the outputs that the rename
/// carried over to the references.
proof fn lemma_renamed_suffixes(before: AxisDefinitions, after: AxisDefinitions, old: Seq<char>, n: Seq<char>)
    requires
        after.names() == rename_in(before.names(), old, n),
        n == old ==> after.axes() == before.axes(),
        n != old ==> after.axes() == rename_passes(
            rename_in(before.names(), old, n),
            before.axes(),
            old,
            n,
            rename_suffixes(before.names(), before.axes(), old, n),
            before.names().len(),
        ),
    ensures
        match after.definition_of(n) {
            Some(v) => suffixes_of(v) == rename_suffixes(before.names(), before.axes(), old, n),
            None => rename_suffixes(before.names(), before.axes(), old, n) == Seq::<Seq<char>>::empty(),
        },
{
    match first_index_of(after.names(), n) {
        Some(k) => {
            lemma_first_index(after.names(), n);
            assert(0 <= k < after.names().len());
            assert(after.names().len() == after.definitions@.len());
            assert(before.axes().len() == before.definitions@.len());
            assert(after.axes().len() == after.definitions@.len());
            assert(after.names().len() == before.names().len());
            if n != old {
                lemma_rename_passes_keeps(
                    rename_in(before.names(), old, n),
                    before.axes(),
                    old,
                    n,
                    rename_suffixes(before.names(), before.axes(), old, n),
                    before.names().len(),
                );
            }
            assert(suffixes_of(after.axes()[k]) == suffixes_of(before.axes()[k]));
        },
        None => {},
    }
}

impl AxisDefinitions {
    /// Renames the definitions named `old_name` to `new_name`, keeps them
    /// shown if they were, and makes the references to `old_name`, and to
    /// each of its outputs `old_name_S`, follow: for each definition in
    /// order, the first definition carrying the same name has its references
    /// renamed (see `rename_passes`; with names all different, every
    /// definition is renamed once).
    pub fn do_rename(&mut self, old_name: &str, new_name: &str)
        ensures
            final(self).resolved@ == old(self).resolved@,
            old_name@ == new_name@ ==> {
                &&& final(self).names() == old(self).names()
                &&& final(self).axes() == old(self).axes()
                &&& final(self).visible() == old(self).visible()
            },
            old_name@ != new_name@ ==> {
                &&& final(self).names() == rename_in(old(self).names(), old_name@, new_name@)
                &&& final(self).axes() == rename_passes(
                    rename_in(old(self).names(), old_name@, new_name@),
                    old(self).axes(),
                    old_name@,
                    new_name@,
                    rename_suffixes(old(self).names(), old(self).axes(), old_name@, new_name@),
                    old(self).names().len(),
                )
                &&& final(self).visible() == if old(self).visible().contains(old_name@) {
                    old(self).visible().remove(old_name@).insert(new_name@)
                } else {
                    old(self).visible()
                }
            },
    {
        let from = string_from(old_name);
        let to = string_from(new_name);
        if from == to {
            return;
        }
        let ghost names0 = self.names();
        let ghost axes0 = self.axes();
        let ghost resolved0 = self.resolved@;
        let ghost visible0 = self.visible();
        let n = self.definitions.len();
        let mut i: usize = 0;
        while i < n
            invariant
                i <= n,
                n == self.definitions@.len(),
                self.axes() == axes0,
                self.resolved@ == resolved0,
                self.visible() == visible0,
                names0.len() == n,
                forall|j: int| 0 <= j < i ==> #[trigger] self.names()[j] == (if names0[j] == old_name@ {
                    new_name@
                } else {
                    names0[j]
                }),
                forall|j: int| i <= j < n ==> #[trigger] self.names()[j] == names0[j],
            decreases n - i,
        {
            assert(self.names()[i as int] == names0[i as int]);
            let ghost before = self.definitions@;
            let ghost names_before = self.names();
            if same_text(&self.definitions[i].name, old_name) {
                self.definitions[i].name = string_from(new_name);
                proof {
                    assert forall|j: int| 0 <= j < n && j != i implies self.definitions@[j] == before[j] by {}
                    assert(self.definitions@[i as int].axis == before[i as int].axis);
                    assert(self.axes() =~= axes0);
                    assert(self.names()[i as int] == new_name@);
                    assert forall|j: int| 0 <= j < n && j != i implies #[trigger] self.names()[j] == before[j].name@ by {}
                }
            }
            proof {
                assert forall|j: int| 0 <= j < n implies #[trigger] self.names()[j] == (if j == i {
                    if names0[j] == old_name@ {
                        new_name@
                    } else {
                        names0[j]
                    }
                } else {
                    names_before[j]
                }) by {
                    assert(self.names()[j] == self.definitions@[j].name@);
                    assert(names_before[j] == before[j].name@);
                }
            }
            i = i + 1;
        }
        assert(self.names() =~= rename_in(names0, old_name@, new_name@));
        // keep the axis shown under its new name
        let ghost shown0 = self.visible();
        let mut shown = false;
        let mut k: usize = 0;
        while k < self.visible_axes.len()
            invariant
                k <= self.visible_axes@.len(),
                shown == exists|j: int| 0 <= j < k && #[trigger] self.visible_axes.deep_view()[j] == old_name@,
            decreases self.visible_axes.len() - k,
        {
            assert(self.visible_axes.deep_view()[k as int] == self.visible_axes@[k as int]@);
            if same_text(&self.visible_axes[k], old_name) {
                shown = true;
            }
            k = k + 1;
        }
        assert(shown == shown0.contains(old_name@));
        if shown {
            let mut list: Vec<String> = Vec::new();
            std::mem::swap(&mut list, &mut self.visible_axes);
            let mut rest = without(list, old_name);
            let ghost r0 = rest.deep_view();
            let mut present = false;
            let mut k2: usize = 0;
            while k2 < rest.len()
                invariant
                    k2 <= rest@.len(),
                    present == exists|j: int| 0 <= j < k2 && #[trigger] rest.deep_view()[j] == new_name@,
                decreases rest.len() - k2,
            {
                assert(rest.deep_view()[k2 as int] == rest@[k2 as int]@);
                if same_text(&rest[k2], new_name) {
                    present = true;
                }
                k2 = k2 + 1;
            }
            if !present {
                rest.push(string_from(new_name));
                assert(rest.deep_view() =~= r0.push(new_name@));
                proof {
                    lemma_push_to_set(r0, new_name@);
                }
            } else {
                assert(r0.to_set().contains(new_name@));
                assert(r0.to_set() =~= r0.to_set().insert(new_name@));
            }
            self.visible_axes = rest;
        }
        // references follow the rename
        let sufs = match self.get_definition(new_name) {
            Some(a) => a.output_suffixes(),
            None => Vec::new(),
        };
        let ghost s = sufs.deep_view();
        proof {
            match first_index_of(self.names(), new_name@) {
                Some(k) => {
                    assert(self.axes()[k] == axes0[k]);
                },
                None => {
                    assert(s =~= Seq::<Seq<char>>::empty());
                },
            }
            assert(s == rename_suffixes(names0, axes0, old_name@, new_name@));
        }
        let ghost names1 = self.names();
        let ghost visible1 = self.visible();
        assert(names1 == rename_in(names0, old_name@, new_name@));
        let mut i: usize = 0;
        while i < n
            invariant
                i <= n,
                n == self.definitions@.len(),
                names1.len() == n,
                self.names() == names1,
                self.resolved@ == resolved0,
                self.visible() == visible1,
                sufs.deep_view() == s,
                self.axes() == rename_passes(names1, axes0, old_name@, new_name@, s, i as nat),
            decreases n - i,
        {
            let key = string_from(self.definitions[i].name.as_str());
            assert(key@ == names1[i as int]);
            let ghost axes_before = self.axes();
            match self.position_of(key.as_str()) {
                Some(p) => {
                    self.rename_references_at(p, old_name, new_name, &sufs);
                    proof {
                        assert(self.axes() =~= axes_before.update(
                            p as int,
                            renamed_view(axes_before[p as int], old_name@, new_name@, s),
                        ));
                    }
                },
                None => {
                    assert(names1.contains(names1[i as int]));
                },
            }
            i = i + 1;
        }
    }

    /// Renames, in the definition at `p`, the references to `old_name` and
    /// to each output `old_name_S` (for `S` in `sufs`).
    fn rename_references_at(&mut self, p: usize, old_name: &str, new_name: &str, sufs: &Vec<String>)
        requires
            p < old(self).definitions@.len(),
        ensures
            final(self).definitions@.len() == old(self).definitions@.len(),
            final(self).names() == old(self).names(),
            final(self).axes() == old(self).axes().update(
                p as int,
                renamed_view(old(self).axes()[p as int], old_name@, new_name@, sufs.deep_view()),
            ),
            final(self).resolved@ == old(self).resolved@,
            final(self).visible_axes@ == old(self).visible_axes@,
    {
        let ghost s = sufs.deep_view();
        let ghost before = self.definitions@;
        let n = self.definitions.len();
        self.definitions[p].axis.rename_references(old_name, new_name);
        assert(s.take(0) =~= Seq::<Seq<char>>::empty());
        let mut k: usize = 0;
        while k < sufs.len()
            invariant
                k <= sufs@.len(),
                p < n,
                n == self.definitions@.len(),
                before.len() == n,
                self.resolved@ == old(self).resolved@,
                self.visible_axes@ == old(self).visible_axes@,
                sufs.deep_view() == s,
                forall|j: int| 0 <= j < n && j != p ==> #[trigger] self.definitions@[j] == before[j],
                self.definitions@[p as int].name == before[p as int].name,
                self.definitions@[p as int].axis@ == renamed_view(before[p as int].axis@, old_name@, new_name@, s.take(k as int)),
            decreases sufs.len() - k,
        {
            let mut from_sub = string_from(old_name);
            push_char(&mut from_sub, '_');
            from_sub.append(sufs[k].as_str());
            let mut to_sub = string_from(new_name);
            push_char(&mut to_sub, '_');
            to_sub.append(sufs[k].as_str());
            assert(s[k as int] == sufs@[k as int]@);
            assert(from_sub@ =~= sub_name(old_name@, s[k as int]));
            assert(to_sub@ =~= sub_name(new_name@, s[k as int]));
            self.definitions[p].axis.rename_references(from_sub.as_str(), to_sub.as_str());
            assert(s.take(k + 1).drop_last() =~= s.take(k as int));
            k = k + 1;
        }
        assert(s.take(s.len() as int) =~= s);
        proof {
            assert(self.axes()[p as int] == self.definitions@[p as int].axis@);
            assert(before[p as int].axis@ == old(self).axes()[p as int]);
            assert forall|j: int| 0 <= j < n implies #[trigger] self.axes()[j] == old(self).axes().update(
                p as int,
                renamed_view(old(self).axes()[p as int], old_name@, new_name@, s),
            )[j] by {
                assert(self.axes()[j] == self.definitions@[j].axis@);
                assert(old(self).axes()[j] == before[j].axis@);
            }
            assert(self.axes() =~= old(self).axes().update(
                p as int,
                renamed_view(old(self).axes()[p as int], old_name@, new_name@, s),
            ));
            assert forall|j: int| 0 <= j < n implies #[trigger] self.names()[j] == old(self).names()[j] by {
                assert(self.names()[j] == self.definitions@[j].name@);
                assert(old(self).names()[j] == before[j].name@);
            }
            assert(self.names() =~= old(self).names());
        }
    }
}

/// The axes after the reference pass of a rename: for each definition in
/// order, the first definition carrying the same name has its references
/// renamed (so with names that occur twice, the first such definition is
/// renamed twice and the second not at all).
pub open spec fn rename_passes(
    names: Seq<Seq<char>>,
    axes: Seq<(nat, Seq<Seq<char>>, Seq<int>)>,
    old: Seq<char>,
    new: Seq<char>,
    sufs: Seq<Seq<char>>,
    k: nat,
) -> Seq<(nat, Seq<Seq<char>>, Seq<int>)>
    decreases k,
{
    if k == 0 {
        axes
    } else {
        let a = rename_passes(names, axes, old, new, sufs, (k - 1) as nat);
        match first_index_of(names, names[k - 1]) {
            Some(p) => a.update(p, renamed_view(a[p], old, new, sufs)),
            None => a,
        }
    }
}

/// The reference pass keeps the number of definitions and each one's kind
/// and parameters.
pub proof fn lemma_rename_passes_keeps(
    names: Seq<Seq<char>>,
    axes: Seq<(nat, Seq<Seq<char>>, Seq<int>)>,
    old: Seq<char>,
    new: Seq<char>,
    sufs: Seq<Seq<char>>,
    k: nat,
)
    requires
        names.len() == axes.len(),
        k <= names.len(),
    ensures
        rename_passes(names, axes, old, new, sufs, k).len() == axes.len(),
        forall|j: int| 0 <= j < axes.len() ==> (#[trigger] rename_passes(names, axes, old, new, sufs, k)[j]).0
            == axes[j].0 && rename_passes(names, axes, old, new, sufs, k)[j].2 == axes[j].2,
    decreases k,
{
    if k > 0 {
        lemma_rename_passes_keeps(names, axes, old, new, sufs, (k - 1) as nat);
        let i = k - 1;
        assert(names.contains(names[i]));
        lemma_first_index(names, names[i]);
    }
}

/// With names that are all different, the reference pass renames each
/// definition once.
pub proof fn lemma_rename_passes_distinct(
    names: Seq<Seq<char>>,
    axes: Seq<(nat, Seq<Seq<char>>, Seq<int>)>,
    old: Seq<char>,
    new: Seq<char>,
    sufs: Seq<Seq<char>>,
    k: nat,
)
    requires
        names.no_duplicates(),
        names.len() == axes.len(),
        k <= names.len(),
    ensures
        rename_passes(names, axes, old, new, sufs, k).len() == axes.len(),
        forall|j: int| 0 <= j < k ==> #[trigger] rename_passes(names, axes, old, new, sufs, k)[j]
            == renamed_view(axes[j], old, new, sufs),
        forall|j: int| k <= j < axes.len() ==> #[trigger] rename_passes(names, axes, old, new, sufs, k)[j]
            == axes[j],
    decreases k,
{
    if k > 0 {
        lemma_rename_passes_distinct(names, axes, old, new, sufs, (k - 1) as nat);
        let i = k - 1;
        assert(names.contains(names[i]));
        lemma_first_index(names, names[i]);
        let p = first_index_of(names, names[i]).unwrap();
        assert(p == i);
    }
}

// ---------------------------------------------------------------------------
// Resolution order
// ---------------------------------------------------------------------------

/// Definition `i` refers to definition `j` (by its name, or by one of its
/// outputs), and `j` is not named like a built-in axis.
pub open spec fn depends_on(
    names: Seq<Seq<char>>,
    axes: Seq<(nat, Seq<Seq<char>>, Seq<int>)>,
    i: int,
    j: int,
) -> bool {
    &&& 0 <= j < names.len()
    &&& !is_builtin(names[j])
    &&& exists|k: int| 0 <= k < axes[i].1.len() && strip_sub_index_spec(#[trigger] axes[i].1[k]) == names[j]
}

/// Each definition in `order` comes after every definition it depends on.
pub open spec fn dependencies_first(
    names: Seq<Seq<char>>,
    axes: Seq<(nat, Seq<Seq<char>>, Seq<int>)>,
    order: Seq<usize>,
) -> bool {
    forall|p: int, j: int| #![trigger depends_on(names, axes, order[p] as int, j)]
        0 <= p < order.len() && depends_on(names, axes, order[p] as int, j) ==> exists|q: int|
            0 <= q < p && #[trigger] order[q] == j
}

/// Each definition left out of `order` depends on one that is left out too.
pub open spec fn left_out_blocked(
    names: Seq<Seq<char>>,
    axes: Seq<(nat, Seq<Seq<char>>, Seq<int>)>,
    order: Seq<usize>,
) -> bool {
    forall|i: usize|
        i < names.len() && !#[trigger] order.contains(i) ==> exists|j: usize|
            #[trigger] depends_on(names, axes, i as int, j as int) && !order.contains(j)
}

fn is_builtin_name(s: &String) -> (r: bool)
    ensures
        r == is_builtin(s@),
{
    let x = string_from("X");
    let y = string_from("Y");
    let z = string_from("Z");
    proof {
        reveal_strlit("X");
        reveal_strlit("Y");
        reveal_strlit("Z");
        assert(x@ =~= seq!['X']);
        assert(y@ =~= seq!['Y']);
        assert(z@ =~= seq!['Z']);
    }
    *s == x || *s == y || *s == z
}

impl AxisDefinitions {
    /// For each definition, the definitions it depends on.
    fn dependency_lists(&self) -> (r: Vec<Vec<usize>>)
        ensures
            r@.len() == self.definitions@.len(),
            forall|i: int, j: int| #![trigger r@[i]@.contains(j as usize)]
                0 <= i < r@.len() && 0 <= j < self.definitions@.len() ==> (r@[i]@.contains(j as usize) <==> depends_on(
                    self.names(),
                    self.axes(),
                    i,
                    j,
                )),
            forall|i: int, k: int| 0 <= i < r@.len() && 0 <= k < r@[i]@.len() ==> #[trigger] r@[i]@[k] < self.definitions@.len(),
    {
        let n = self.definitions.len();
        let ghost names = self.names();
        let ghost axes = self.axes();
        let mut lists: Vec<Vec<usize>> = Vec::new();
        let mut i: usize = 0;
        while i < n
            invariant
                i <= n,
                n == self.definitions@.len(),
                names == self.names(),
                axes == self.axes(),
                lists@.len() == i,
                forall|a: int, j: int| #![trigger lists@[a]@.contains(j as usize)]
                    0 <= a < i && 0 <= j < n ==> (lists@[a]@.contains(j as usize) <==> depends_on(names, axes, a, j)),
                forall|a: int, k: int| 0 <= a < i && 0 <= k < lists@[a]@.len() ==> #[trigger] lists@[a]@[k] < n,
            decreases n - i,
        {
            let deps = self.definitions[i].axis.dependencies();
            assert(deps.deep_view() == axes[i as int].1);
            let mut bases: Vec<String> = Vec::new();
            let mut k: usize = 0;
            while k < deps.len()
                invariant
                    k <= deps@.len(),
                    bases@.len() == k,
                    forall|m: int| 0 <= m < k ==> #[trigger] bases@[m]@ == strip_sub_index_spec(deps.deep_view()[m]),
                decreases deps.len() - k,
            {
                assert(deps.deep_view()[k as int] == deps@[k as int]@);
                bases.push(strip_sub_index(deps[k].as_str()));
                k = k + 1;
            }
            let mut row: Vec<usize> = Vec::new();
            let mut j: usize = 0;
            while j < n
                invariant
                    j <= n,
                    n == self.definitions@.len(),
                    names == self.names(),
                    axes == self.axes(),
                    i < n,
                    deps.deep_view() == axes[i as int].1,
                    bases@.len() == deps@.len(),
                    forall|m: int| 0 <= m < bases@.len() ==> #[trigger] bases@[m]@ == strip_sub_index_spec(deps.deep_view()[m]),
                    forall|b: int| 0 <= b < n ==> (row@.contains(b as usize) <==> (b < j && depends_on(names, axes, i as int, b))),
                    forall|k2: int| 0 <= k2 < row@.len() ==> #[trigger] row@[k2] < j,
                decreases n - j,
            {
                let name_j = &self.definitions[j].name;
                assert(names[j as int] == name_j@);
                let mut hit = false;
                if !is_builtin_name(name_j) {
                    let mut m: usize = 0;
                    while m < bases.len()
                        invariant
                            m <= bases@.len(),
                            hit == exists|m2: int| 0 <= m2 < m && (#[trigger] bases@[m2])@ == name_j@,
                        decreases bases.len() - m,
                    {
                        if bases[m] == *name_j {
                            hit = true;
                        }
                        m = m + 1;
                    }
                    proof {
                        if hit {
                            let m2 = choose|m2: int| 0 <= m2 < bases@.len() && (#[trigger] bases@[m2])@ == name_j@;
                            assert(strip_sub_index_spec(axes[i as int].1[m2]) == names[j as int]);
                        }
                        if depends_on(names, axes, i as int, j as int) {
                            let k3 = choose|k3: int| 0 <= k3 < axes[i as int].1.len() && strip_sub_index_spec(#[trigger] axes[i as int].1[k3]) == names[j as int];
                            assert(bases@[k3]@ == name_j@);
                        }
                    }
                }
                let ghost row0 = row@;
                if hit {
                    row.push(j);
                }
                proof {
                    assert forall|b: int| 0 <= b < n implies (row@.contains(b as usize) <==> (b < j + 1 && depends_on(names, axes, i as int, b))) by {
                        crate::canon::lemma_push_contains(row0, j, b as usize);
                        if row0.contains(b as usize) {
                            let q = choose|q: int| 0 <= q < row0.len() && row0[q] == b as usize;
                            assert(row0[q] < j);
                        }
                    }
                }
                j = j + 1;
            }
            let ghost lists0 = lists@;
            lists.push(row);
            proof {
                assert forall|a: int, b: int| #![trigger lists@[a]@.contains(b as usize)]
                    0 <= a < i + 1 && 0 <= b < n implies (lists@[a]@.contains(b as usize) <==> depends_on(names, axes, a, b)) by {
                    if a < i {
                        assert(lists@[a] == lists0[a]);
                    }
                }
                assert forall|a: int, k2: int| 0 <= a < i + 1 && 0 <= k2 < lists@[a]@.len() implies #[trigger] lists@[a]@[k2] < n by {
                    if a < i {
                        assert(lists@[a] == lists0[a]);
                    }
                }
            }
            i = i + 1;
        }
        lists
    }

    /// An order in which the definitions can be resolved: each comes after
    /// those it depends on; the definitions left out are those caught in, or
    /// depending on, a circular reference.
    pub fn resolution_order(&self) -> (order: Vec<usize>)
        ensures
            order@.no_duplicates(),
            forall|p: int| 0 <= p < order@.len() ==> #[trigger] order@[p] < self.definitions@.len(),
            dependencies_first(self.names(), self.axes(), order@),
            left_out_blocked(self.names(), self.axes(), order@),
    {
        let ghost names = self.names();
        let ghost axes = self.axes();
        let n = self.definitions.len();
        let deps = self.dependency_lists();
        let mut done: Vec<bool> = Vec::new();
        while done.len() < n
            invariant
                done@.len() <= n,
                forall|k: int| 0 <= k < done@.len() ==> !done@[k],
            decreases n - done.len(),
        {
            done.push(false);
        }
        let mut order: Vec<usize> = Vec::new();
        loop
            invariant
                n == self.definitions@.len(),
                names == self.names(),
                axes == self.axes(),
                names.len() == n,
                deps@.len() == n,
                forall|i: int, j: int| #![trigger deps@[i]@.contains(j as usize)]
                    0 <= i < n && 0 <= j < n ==> (deps@[i]@.contains(j as usize) <==> depends_on(names, axes, i, j)),
                forall|i: int, k: int| 0 <= i < n && 0 <= k < deps@[i]@.len() ==> #[trigger] deps@[i]@[k] < n,
                done@.len() == n,
                forall|i: int| 0 <= i < n ==> (#[trigger] done@[i] <==> order@.contains(i as usize)),
                order@.no_duplicates(),
                forall|p: int| 0 <= p < order@.len() ==> #[trigger] order@[p] < n,
                dependencies_first(names, axes, order@),
            ensures
                left_out_blocked(names, axes, order@),
            decreases crate::orbit::count_false(done@),
        {
            let ghost cf0 = crate::orbit::count_false(done@);
            let ghost done0 = done@;
            let mut changed = false;
            let mut i: usize = 0;
            while i < n
                invariant
                    i <= n,
                    n == self.definitions@.len(),
                    names.len() == n,
                    deps@.len() == n,
                    forall|a: int, j: int| #![trigger deps@[a]@.contains(j as usize)]
                        0 <= a < n && 0 <= j < n ==> (deps@[a]@.contains(j as usize) <==> depends_on(names, axes, a, j)),
                    forall|a: int, k: int| 0 <= a < n && 0 <= k < deps@[a]@.len() ==> #[trigger] deps@[a]@[k] < n,
                    done@.len() == n,
                    forall|a: int| 0 <= a < n ==> (#[trigger] done@[a] <==> order@.contains(a as usize)),
                    order@.no_duplicates(),
                    forall|p: int| 0 <= p < order@.len() ==> #[trigger] order@[p] < n,
                    dependencies_first(names, axes, order@),
                    changed ==> crate::orbit::count_false(done@) < cf0,
                    !changed ==> done@ == done0,
                    crate::orbit::count_false(done@) <= cf0,
                    !changed ==> forall|a: int| 0 <= a < i ==> #[trigger] done@[a] || exists|j: int|
                        depends_on(names, axes, a, j) && !done@[j],
                decreases n - i,
            {
                if !done[i] {
                    let row = &deps[i];
                    let mut ready = true;
                    let mut k: usize = 0;
                    while k < row.len()
                        invariant
                            k <= row@.len(),
                            i < n,
                            row@ == deps@[i as int]@,
                            done@.len() == n,
                            forall|k2: int| 0 <= k2 < row@.len() ==> #[trigger] row@[k2] < n,
                            ready == forall|k2: int| 0 <= k2 < k ==> done@[#[trigger] row@[k2] as int],
                        decreases row.len() - k,
                    {
                        if !done[row[k]] {
                            ready = false;
                        }
                        k = k + 1;
                    }
                    if ready {
                        proof {
                            crate::orbit::lemma_count_false_set(done@, i as int);
                        }
                        let ghost order0 = order@;
                        let ghost done_prev = done@;
                        done.set(i, true);
                        order.push(i);
                        proof {
                            assert forall|a: int| 0 <= a < n implies (#[trigger] done@[a] <==> order@.contains(a as usize)) by {
                                crate::canon::lemma_push_contains(order0, i, a as usize);
                                assert(done_prev[a] <==> order0.contains(a as usize));
                            }
                            assert(!order0.contains(i)) by {
                                assert(!done_prev[i as int]);
                            }
                            assert(order@.no_duplicates()) by {
                                assert forall|x: int, y: int| 0 <= x < y < order@.len() implies order@[x] != order@[y] by {
                                    if y == order@.len() - 1 {
                                        assert(order@[x] == order0[x]);
                                        assert(order0.contains(order0[x]));
                                    } else {
                                        assert(order@[x] == order0[x] && order@[y] == order0[y]);
                                    }
                                }
                            }
                            assert forall|p: int, j: int| #![trigger depends_on(names, axes, order@[p] as int, j)]
                                0 <= p < order@.len() && depends_on(names, axes, order@[p] as int, j) implies exists|q: int|
                                    0 <= q < p && #[trigger] order@[q] == j by {
                                if p < order0.len() {
                                    assert(order@[p] == order0[p]);
                                    let q = choose|q: int| 0 <= q < p && #[trigger] order0[q] == j;
                                    assert(order@[q] == order0[q]);
                                } else {
                                    assert(order@[p] == i);
                                    assert(deps@[i as int]@.contains(j as usize));
                                    let k2 = choose|k2: int| 0 <= k2 < row@.len() && row@[k2] == j as usize;
                                    assert(done_prev[row@[k2] as int]);
                                    assert(order0.contains(j as usize));
                                    let q = choose|q: int| 0 <= q < order0.len() && order0[q] == j as usize;
                                    assert(order@[q] == order0[q]);
                                }
                            }
                        }
                        changed = true;
                    } else {
                        proof {
                            let k2 = choose|k2: int| 0 <= k2 < row@.len() && !done@[#[trigger] row@[k2] as int];
                            let j = row@[k2] as int;
                            assert(deps@[i as int]@.contains(j as usize));
                            assert(depends_on(names, axes, i as int, j));
                        }
                    }
                }
                i = i + 1;
            }
            if !changed {
                proof {
                    assert forall|a: usize| a < n && !#[trigger] order@.contains(a) implies exists|j: usize|
                        #[trigger] depends_on(names, axes, a as int, j as int) && !order@.contains(j) by {
                        assert(!done@[a as int]);
                        let j = choose|j: int| depends_on(names, axes, a as int, j) && !done@[j];
                        assert(0 <= j < n);
                        assert(!order@.contains(j as usize));
                        assert(depends_on(names, axes, a as int, (j as usize) as int));
                    }
                }
                break;
            }
        }
        order
    }
}


// ---------------------------------------------------------------------------
// Names that resolve to a vector
// ---------------------------------------------------------------------------

/// Where the vector that a name stands for is found: a built-in axis
/// (`X`, `Y`, `Z` as 0, 1, 2), or output `index` of the resolved axis `key`.
pub enum VectorRef {
    Builtin(usize),
    Output { key: String, index: usize },
}

/// The first position of `x` among the suffixes `s`.
pub open spec fn suffix_position(s: Seq<Seq<char>>, x: Seq<char>) -> Option<int> {
    first_index_of(s, x)
}

/// Appends `base_s` for each suffix `s`.
fn push_output_names(names: &mut Vec<String>, base: &String, sufs: &Vec<String>)
    ensures
        final(names).deep_view() == old(names).deep_view() + sufs.deep_view().map_values(
            |x: Seq<char>| sub_name(base@, x),
        ),
{
    let ghost before = names.deep_view();
    let ghost sv = sufs.deep_view();
    let mut k: usize = 0;
    while k < sufs.len()
        invariant
            k <= sufs@.len(),
            sv == sufs.deep_view(),
            names.deep_view() == before + sv.take(k as int).map_values(|x: Seq<char>| sub_name(base@, x)),
        decreases sufs.len() - k,
    {
        let mut sub = string_copy(base);
        push_char(&mut sub, '_');
        sub.append(sufs[k].as_str());
        assert(sv[k as int] == sufs@[k as int]@);
        assert(sub@ =~= sub_name(base@, sv[k as int]));
        let ghost nb = names.deep_view();
        names.push(sub);
        assert(names.deep_view() =~= nb.push(sub_name(base@, sv[k as int])));
        assert(sv.take(k + 1).map_values(|x: Seq<char>| sub_name(base@, x)) =~= sv.take(k as int).map_values(
            |x: Seq<char>| sub_name(base@, x),
        ).push(sub_name(base@, sv[k as int])));
        k = k + 1;
    }
    assert(sv.take(sv.len() as int) =~= sv);
}

impl AxisDefinitions {
    /// The recorded resolution at entry `k`, if it is the count of vectors
    /// of a defined name, covers the outputs the definition names.
    pub open spec fn entry_recorded(&self, k: int) -> bool {
        match self.resolved@[k].1 {
            Some(c) => match self.definition_of(self.resolved@[k].0@) {
                Some(v) => suffixes_of(v).len() <= c,
                None => true,
            },
            None => true,
        }
    }

    /// Every recorded resolution of a defined name has at least as many
    /// vectors as the definition names outputs.
    pub open spec fn outputs_recorded(&self) -> bool {
        forall|k: int| 0 <= k < self.resolved@.len() ==> #[trigger] self.entry_recorded(k)
    }

    /// What `get_resolved_vector` finds for `name`: a built-in axis (0, 1,
    /// 2), or (3, key, index) for output `index` of the resolved axis `key`.
    pub open spec fn vector_ref(&self, name: Seq<char>) -> Option<(int, Seq<char>, int)> {
        if name.len() == 0 {
            None
        } else if name == seq!['X'] {
            Some((0, Seq::empty(), 0))
        } else if name == seq!['Y'] {
            Some((1, Seq::empty(), 0))
        } else if name == seq!['Z'] {
            Some((2, Seq::empty(), 0))
        } else if self.resolution(name) == Some(Some(1usize)) {
            Some((3, name, 0))
        } else {
            match split_sub(name) {
                Some(parts) => match (self.resolution(parts.0), self.definition_of(parts.0)) {
                    (Some(Some(c)), Some(v)) => match suffix_position(suffixes_of(v), parts.1) {
                        Some(i) => Some((3, parts.0, i)),
                        None => None,
                    },
                    _ => None,
                },
                None => None,
            }
        }
    }

    proof fn lemma_recorded(&self, name: Seq<char>, c: usize)
        requires
            self.outputs_recorded(),
            self.resolution(name) == Some(Some(c)),
            self.definition_of(name) is Some,
        ensures
            suffixes_of(self.definition_of(name).unwrap()).len() <= c,
    {
        let keys = self.resolved_keys();
        if !keys.contains(name) {
            assert(first_index_of(keys, name) is None);
        }
        lemma_first_index(keys, name);
        let k = first_index_of(keys, name).unwrap();
        assert(0 <= k < keys.len() && keys[k] == name);
        assert(self.resolved@[k].0@ == name);
        assert(self.entry_recorded(k));
    }

    /// The recorded resolution of `name` (the first entry for it).
    pub fn lookup_resolution(&self, name: &str) -> (r: Option<Option<usize>>)
        ensures
            r == self.resolution(name@),
    {
        let ghost keys = self.resolved_keys();
        let mut k: usize = 0;
        while k < self.resolved.len()
            invariant
                k <= self.resolved@.len(),
                keys == self.resolved_keys(),
                forall|j: int| 0 <= j < k ==> keys[j] != name@,
            decreases self.resolved.len() - k,
        {
            assert(keys[k as int] == self.resolved@[k as int].0@);
            if same_text(&self.resolved[k].0, name) {
                proof {
                    let c = choose|c: int| 0 <= c < keys.len() && keys[c] == name@ && forall|j: int| 0 <= j < c ==> keys[j] != name@;
                    if c < k {
                    } else if c > k {
                        assert(keys[k as int] != name@);
                    }
                }
                return Some(self.resolved[k].1);
            }
            k = k + 1;
        }
        proof {
            if keys.contains(name@) {
                let j = choose|j: int| 0 <= j < keys.len() && keys[j] == name@;
            }
        }
        None
    }

    /// Whether every recorded resolution has a vector for each output its
    /// definition names.
    #[verifier::rlimit(30)]
    pub fn check_outputs_recorded(&self) -> (r: bool)
        ensures
            r == self.outputs_recorded(),
    {
        let mut k: usize = 0;
        while k < self.resolved.len()
            invariant
                k <= self.resolved@.len(),
                forall|j: int| 0 <= j < k ==> #[trigger] self.entry_recorded(j),
            decreases self.resolved.len() - k,
        {
            if let Some(c) = self.resolved[k].1 {
                if let Some(a) = self.get_definition(self.resolved[k].0.as_str()) {
                    let sufs = a.output_suffixes();
                    if sufs.len() > c {
                        assert(!self.entry_recorded(k as int));
                        return false;
                    }
                }
            }
            assert(self.entry_recorded(k as int));
            k = k + 1;
        }
        true
    }

    /// Where the single vector that `name` stands for is found: a built-in
    /// axis, an axis resolved to one vector, or one named output of an axis
    /// resolved to several.
    pub fn get_resolved_vector(&self, name: &str) -> (r: Option<VectorRef>)
        requires
            self.outputs_recorded(),
        ensures
            match (r, self.vector_ref(name@)) {
                (None, None) => true,
                (Some(VectorRef::Builtin(b)), Some(t)) => t.0 == b && b < 3,
                (Some(VectorRef::Output { key, index }), Some(t)) => t.0 == 3 && t.1 == key@ && t.2 == index,
                _ => false,
            },
    {
        let cs = chars_of(name);
        if cs.len() == 0 {
            return None;
        }
        let s = string_from(name);
        let x = string_from("X");
        let y = string_from("Y");
        let z = string_from("Z");
        proof {
            reveal_strlit("X");
            reveal_strlit("Y");
            reveal_strlit("Z");
            assert(x@ =~= seq!['X']);
            assert(y@ =~= seq!['Y']);
            assert(z@ =~= seq!['Z']);
        }
        if s == x {
            return Some(VectorRef::Builtin(0));
        }
        if s == y {
            return Some(VectorRef::Builtin(1));
        }
        if s == z {
            return Some(VectorRef::Builtin(2));
        }
        if self.lookup_resolution(name) == Some(Some(1usize)) {
            return Some(VectorRef::Output { key: s, index: 0 });
        }
        match rfind_char(&cs, '_') {
            Some(pos) => {
                let base = string_of_range(&cs, 0, pos);
                let suffix = string_of_range(&cs, pos + 1, cs.len());
                assert(base@ =~= cs@.take(pos as int));
                assert(suffix@ =~= cs@.skip(pos + 1));
                let found = self.lookup_resolution(base.as_str());
                assert(found == self.resolution(base@));
                match found {
                    Some(Some(c)) => match self.get_definition(base.as_str()) {
                        Some(a) => {
                            let sufs = a.output_suffixes();
                            let ghost sv = sufs.deep_view();
                            let mut i: usize = 0;
                            assert(split_sub(name@) == Some((base@, suffix@)));
                            while i < sufs.len()
                                invariant
                                    i <= sufs@.len(),
                                    sv == sufs.deep_view(),
                                    sv == suffixes_of(a@),
                                    forall|j: int| 0 <= j < i ==> sv[j] != suffix@,
                                    self.outputs_recorded(),
                                    self.resolution(base@) == Some(Some(c)),
                                    self.definition_of(base@) == Some(a@),
                                    split_sub(name@) == Some((base@, suffix@)),
                                    name@.len() > 0,
                                    name@ != seq!['X'] && name@ != seq!['Y'] && name@ != seq!['Z'],
                                    self.resolution(name@) != Some(Some(1usize)),
                                decreases sufs.len() - i,
                            {
                                assert(sv[i as int] == sufs@[i as int]@);
                                if sufs[i] == suffix {
                                    proof {
                                        let c2 = choose|c2: int| 0 <= c2 < sv.len() && sv[c2] == suffix@ && forall|j: int| 0 <= j < c2 ==> sv[j] != suffix@;
                                        if c2 < i {
                                        } else if c2 > i {
                                            assert(sv[i as int] != suffix@);
                                        }
                                        self.lemma_recorded(base@, c);
                                    }
                                    return Some(VectorRef::Output { key: base, index: i });
                                }
                                i = i + 1;
                            }
                            proof {
                                if sv.contains(suffix@) {
                                    let j = choose|j: int| 0 <= j < sv.len() && sv[j] == suffix@;
                                }
                            }
                            None
                        },
                        None => None,
                    },
                    _ => None,
                }
            },
            None => None,
        }
    }

    /// The names that can be picked for an axis: the built-in axes, then each
    /// definition's name, or the names of its outputs when it resolved to
    /// several vectors.
    #[verifier::rlimit(30)]
    pub fn available_axis_names(&self) -> (r: Vec<String>)
        ensures
            r.deep_view() == seq![seq!['X'], seq!['Y'], seq!['Z']] + available_upto(*self, self.definitions@.len()),
    {
        let mut names: Vec<String> = Vec::new();
        let x = string_from("X");
        let y = string_from("Y");
        let z = string_from("Z");
        proof {
            reveal_strlit("X");
            reveal_strlit("Y");
            reveal_strlit("Z");
            assert(x@ =~= seq!['X']);
            assert(y@ =~= seq!['Y']);
            assert(z@ =~= seq!['Z']);
        }
        names.push(x);
        names.push(y);
        names.push(z);
        let ghost head = seq![seq!['X'], seq!['Y'], seq!['Z']];
        assert(available_upto(*self, 0) =~= Seq::<Seq<char>>::empty());
        assert(names.deep_view() =~= head + available_upto(*self, 0));
        let mut i: usize = 0;
        while i < self.definitions.len()
            invariant
                i <= self.definitions@.len(),
                head == seq![seq!['X'], seq!['Y'], seq!['Z']],
                names.deep_view() == head + available_upto(*self, i as nat),
            decreases self.definitions.len() - i,
        {
            let d = &self.definitions[i];
            assert(self.names()[i as int] == d.name@ && self.axes()[i as int] == d.axis@);
            let ghost before = names.deep_view();
            let multi = match self.lookup_resolution(d.name.as_str()) {
                Some(Some(c)) => c > 1,
                _ => false,
            };
            if multi {
                let sufs = d.axis.output_suffixes();
                push_output_names(&mut names, &d.name, &sufs);
            } else {
                let c = string_copy(&d.name);
                names.push(c);
                assert(names.deep_view() =~= before.push(d.name@));
            }
            assert(names.deep_view() =~= head + available_upto(*self, (i + 1) as nat));
            i = i + 1;
        }
        names
    }
}

/// The pickable names that the first `i` definitions give.
pub open spec fn available_upto(defs: AxisDefinitions, i: nat) -> Seq<Seq<char>>
    decreases i,
{
    if i == 0 {
        Seq::empty()
    } else {
        let prev = available_upto(defs, (i - 1) as nat);
        let name = defs.names()[i - 1];
        match defs.resolution(name) {
            Some(Some(c)) => if c > 1 {
                prev + suffixes_of(defs.axes()[i - 1]).map_values(|x: Seq<char>| sub_name(name, x))
            } else {
                prev.push(name)
            },
            _ => prev.push(name),
        }
    }
}

/// Whether `name` stands for a single usable vector: a built-in axis or an
/// axis (or output) that resolved.
pub fn is_axis_ok(name: &str, axis_defs: &AxisDefinitions) -> (r: bool)
    requires
        axis_defs.outputs_recorded(),
    ensures
        r == (axis_defs.vector_ref(name@) is Some),
{
    axis_defs.get_resolved_vector(name).is_some()
}


// ---------------------------------------------------------------------------
// The puzzle's axes
// ---------------------------------------------------------------------------

/// An axis of the puzzle, as the naming logic sees it: the axis it uses,
/// its order of symmetry, whether that order follows a cosine rule
/// definition, and whether it takes part. (Its cut's colatitude stays with
/// the application.)
pub struct AxisEntry {
    pub axis_name: String,
    pub n: u32,
    pub n_match: bool,
    pub enabled: bool,
}

impl View for AxisEntry {
    type V = (Seq<char>, u32, bool, bool);

    open spec fn view(&self) -> (Seq<char>, u32, bool, bool) {
        (self.axis_name@, self.n, self.n_match, self.enabled)
    }
}

/// An entry after following a cosine rule definition's order: a matched
/// entry takes the order its axis gives, or stops matching when its axis
/// gives none.
pub open spec fn synced_entry(defs: AxisDefinitions, e: (Seq<char>, u32, bool, bool)) -> (Seq<char>, u32, bool, bool) {
    if e.2 {
        match cosine_rule_n(defs, e.0) {
            Some(m) => (e.0, m, e.2, e.3),
            None => (e.0, e.1, false, e.3),
        }
    } else {
        e
    }
}

/// A matched entry whose order changes.
pub open spec fn sync_changes(defs: AxisDefinitions, e: (Seq<char>, u32, bool, bool)) -> bool {
    e.2 && (cosine_rule_n(defs, e.0) matches Some(m) && m != e.1)
}

/// Gives each axis whose order follows a cosine rule definition the order
/// that definition gives it; an axis whose name no longer names such an
/// output stops following. Returns whether some order changed.
pub fn sync_n_match(defs: &AxisDefinitions, entries: &mut Vec<AxisEntry>) -> (changed: bool)
    ensures
        final(entries)@.len() == old(entries)@.len(),
        forall|i: int| 0 <= i < old(entries)@.len() ==> (#[trigger] final(entries)@[i])@ == synced_entry(*defs, old(entries)@[i]@),
        changed == exists|i: int| 0 <= i < old(entries)@.len() && #[trigger] sync_changes(*defs, old(entries)@[i]@),
{
    let ghost start = entries@;
    let mut changed = false;
    let mut i: usize = 0;
    while i < entries.len()
        invariant
            i <= entries@.len(),
            entries@.len() == start.len(),
            forall|j: int| 0 <= j < i ==> (#[trigger] entries@[j])@ == synced_entry(*defs, start[j]@),
            forall|j: int| i <= j < entries@.len() ==> #[trigger] entries@[j] == start[j],
            changed == exists|j: int| 0 <= j < i && #[trigger] sync_changes(*defs, start[j]@),
        decreases entries.len() - i,
    {
        let ghost before = entries@;
        if entries[i].n_match {
            let found = defs.get_cosine_rule_n_for_axis(entries[i].axis_name.as_str());
            match found {
                Some(m) => {
                    if entries[i].n != m {
                        entries[i].n = m;
                        changed = true;
                    }
                },
                None => {
                    entries[i].n_match = false;
                },
            }
        }
        proof {
            assert forall|j: int| 0 <= j < entries@.len() && j != i implies #[trigger] entries@[j] == before[j] by {}
            assert(entries@[i as int]@ == synced_entry(*defs, start[i as int]@));
            assert(changed == exists|j: int| 0 <= j < i + 1 && #[trigger] sync_changes(*defs, start[j]@)) by {
                if sync_changes(*defs, start[i as int]@) {
                    assert(exists|j: int| 0 <= j < i + 1 && #[trigger] sync_changes(*defs, start[j]@));
                }
            }
        }
        i = i + 1;
    }
    changed
}

/// An entry's axis name after renaming `old` to `new` and then each output
/// `old_s` to `new_s`.
pub open spec fn renamed_axis_name(name: Seq<char>, old: Seq<char>, new: Seq<char>, sufs: Seq<Seq<char>>) -> Seq<char> {
    rename_chain(seq![name], old, new, sufs)[0]
}

/// Makes the puzzle's axes follow a renamed definition and its outputs.
pub fn rename_axis_in_puzzle_params(
    entries: &mut Vec<AxisEntry>,
    old_name: &str,
    new_name: &str,
    suffixes: &Vec<String>,
)
    ensures
        final(entries)@.len() == old(entries)@.len(),
        forall|i: int| 0 <= i < old(entries)@.len() ==> (#[trigger] final(entries)@[i])@ == (
            renamed_axis_name(old(entries)@[i]@.0, old_name@, new_name@, suffixes.deep_view()),
            old(entries)@[i]@.1,
            old(entries)@[i]@.2,
            old(entries)@[i]@.3,
        ),
{
    let ghost start = entries@;
    let ghost sv = suffixes.deep_view();
    let mut i: usize = 0;
    while i < entries.len()
        invariant
            i <= entries@.len(),
            entries@.len() == start.len(),
            sv == suffixes.deep_view(),
            forall|j: int| 0 <= j < i ==> (#[trigger] entries@[j])@ == (
                renamed_axis_name(start[j]@.0, old_name@, new_name@, sv),
                start[j]@.1,
                start[j]@.2,
                start[j]@.3,
            ),
            forall|j: int| i <= j < entries@.len() ==> #[trigger] entries@[j] == start[j],
        decreases entries.len() - i,
    {
        let ghost before = entries@;
        let mut name = String::new();
        std::mem::swap(&mut name, &mut entries[i].axis_name);
        assert(name@ == start[i as int]@.0);
        renamed(&mut name, old_name, new_name);
        assert(seq![name@] =~= rename_chain(seq![start[i as int]@.0], old_name@, new_name@, sv.take(0)));
        let mut k: usize = 0;
        while k < suffixes.len()
            invariant
                k <= suffixes@.len(),
                sv == suffixes.deep_view(),
                seq![name@] == rename_chain(seq![start[i as int]@.0], old_name@, new_name@, sv.take(k as int)),
            decreases suffixes.len() - k,
        {
            let mut from_sub = string_from(old_name);
            push_char(&mut from_sub, '_');
            from_sub.append(suffixes[k].as_str());
            let mut to_sub = string_from(new_name);
            push_char(&mut to_sub, '_');
            to_sub.append(suffixes[k].as_str());
            assert(sv[k as int] == suffixes@[k as int]@);
            assert(from_sub@ =~= sub_name(old_name@, sv[k as int]));
            assert(to_sub@ =~= sub_name(new_name@, sv[k as int]));
            let ghost prev = name@;
            renamed(&mut name, from_sub.as_str(), to_sub.as_str());
            assert(sv.take(k + 1).drop_last() =~= sv.take(k as int));
            assert(seq![name@] =~= rename_in(seq![prev], from_sub@, to_sub@));
            k = k + 1;
        }
        assert(sv.take(sv.len() as int) =~= sv);
        entries[i].axis_name = name;
        proof {
            assert forall|j: int| 0 <= j < entries@.len() && j != i implies #[trigger] entries@[j] == before[j] by {}
        }
        i = i + 1;
    }
}


/// Where each of the puzzle's axes finds its vector: nothing for a
/// disabled axis, otherwise what its name resolves to.
pub fn axis_selection(defs: &AxisDefinitions, entries: &Vec<AxisEntry>) -> (r: Vec<Option<VectorRef>>)
    requires
        defs.outputs_recorded(),
    ensures
        r@.len() == entries@.len(),
        forall|i: int| 0 <= i < entries@.len() ==> match (#[trigger] r@[i], entries@[i].enabled) {
            (None, false) => true,
            (_, false) => false,
            (None, true) => defs.vector_ref(entries@[i].axis_name@) is None,
            (Some(VectorRef::Builtin(b)), true) => defs.vector_ref(entries@[i].axis_name@) matches Some(t) && t.0 == b,
            (Some(VectorRef::Output { key, index }), true) => defs.vector_ref(entries@[i].axis_name@) matches Some(t)
                && t.0 == 3 && t.1 == key@ && t.2 == index,
        },
{
    let mut r: Vec<Option<VectorRef>> = Vec::new();
    let mut i: usize = 0;
    while i < entries.len()
        invariant
            i <= entries@.len(),
            r@.len() == i,
            defs.outputs_recorded(),
            forall|j: int| 0 <= j < i ==> match (#[trigger] r@[j], entries@[j].enabled) {
                (None, false) => true,
                (_, false) => false,
                (None, true) => defs.vector_ref(entries@[j].axis_name@) is None,
                (Some(VectorRef::Builtin(b)), true) => defs.vector_ref(entries@[j].axis_name@) matches Some(t) && t.0 == b,
                (Some(VectorRef::Output { key, index }), true) => defs.vector_ref(entries@[j].axis_name@) matches Some(t)
                    && t.0 == 3 && t.1 == key@ && t.2 == index,
            },
        decreases entries.len() - i,
    {
        if entries[i].enabled {
            r.push(defs.get_resolved_vector(entries[i].axis_name.as_str()));
        } else {
            r.push(None);
        }
        i = i + 1;
    }
    r
}

impl AxisDefinitions {
    /// The names, in order, of the shown definitions that resolved; their
    /// vectors are the construction axes drawn.
    #[verifier::rlimit(40)]
    pub fn visible_resolved_names(&self) -> (r: Vec<String>)
        ensures
            r.deep_view() == visible_resolved_upto(*self, self.definitions@.len()),
    {
        let mut r: Vec<String> = Vec::new();
        let mut i: usize = 0;
        while i < self.definitions.len()
            invariant
                i <= self.definitions@.len(),
                r.deep_view() == visible_resolved_upto(*self, i as nat),
            decreases self.definitions.len() - i,
        {
            let d = &self.definitions[i];
            assert(self.names()[i as int] == d.name@);
            let shown = self.is_visible(d.name.as_str());
            let ok = match self.lookup_resolution(d.name.as_str()) {
                Some(Some(_)) => true,
                _ => false,
            };
            let ghost before = r.deep_view();
            assert(ok == (self.resolution(d.name@) matches Some(Some(_))));
            assert(visible_resolved_upto(*self, (i + 1) as nat) == if shown && ok {
                before.push(d.name@)
            } else {
                before
            });
            if shown && ok {
                let c = string_copy(&d.name);
                r.push(c);
                assert(r.deep_view() =~= before.push(d.name@));
            }
            i = i + 1;
        }
        r
    }

    /// Whether `name` is shown.
    pub fn is_visible(&self, name: &str) -> (r: bool)
        ensures
            r == self.visible().contains(name@),
    {
        let mut k: usize = 0;
        while k < self.visible_axes.len()
            invariant
                k <= self.visible_axes@.len(),
                forall|j: int| 0 <= j < k ==> self.visible_axes.deep_view()[j] != name@,
            decreases self.visible_axes.len() - k,
        {
            assert(self.visible_axes.deep_view()[k as int] == self.visible_axes@[k as int]@);
            if same_text(&self.visible_axes[k], name) {
                assert(self.visible_axes.deep_view().contains(name@));
                return true;
            }
            k = k + 1;
        }
        proof {
            if self.visible_axes.deep_view().contains(name@) {
                let j = choose|j: int| 0 <= j < self.visible_axes.deep_view().len() && self.visible_axes.deep_view()[j] == name@;
            }
        }
        false
    }

    /// The built-in axes shown: 0, 1, 2 for `X`, `Y`, `Z`, in that order.
    pub fn visible_builtins(&self) -> (r: Vec<usize>)
        ensures
            r@ == visible_builtin_list(self.visible()),
    {
        let mut r: Vec<usize> = Vec::new();
        let x = string_from("X");
        let y = string_from("Y");
        let z = string_from("Z");
        proof {
            reveal_strlit("X");
            reveal_strlit("Y");
            reveal_strlit("Z");
            assert(x@ =~= seq!['X']);
            assert(y@ =~= seq!['Y']);
            assert(z@ =~= seq!['Z']);
        }
        if self.is_visible(x.as_str()) {
            r.push(0);
        }
        if self.is_visible(y.as_str()) {
            r.push(1);
        }
        if self.is_visible(z.as_str()) {
            r.push(2);
        }
        r
    }
}

/// The shown definitions, among the first `i`, that resolved.
pub open spec fn visible_resolved_upto(defs: AxisDefinitions, i: nat) -> Seq<Seq<char>>
    decreases i,
{
    if i == 0 {
        Seq::empty()
    } else {
        let prev = visible_resolved_upto(defs, (i - 1) as nat);
        let name = defs.names()[i - 1];
        if defs.visible().contains(name) && defs.resolution(name) matches Some(Some(_)) {
            prev.push(name)
        } else {
            prev
        }
    }
}

/// 0, 1, 2 for each of `X`, `Y`, `Z` that is shown.
pub open spec fn visible_builtin_list(shown: Set<Seq<char>>) -> Seq<usize> {
    let a: Seq<usize> = if shown.contains(seq!['X']) { seq![0usize] } else { Seq::empty() };
    let b: Seq<usize> = if shown.contains(seq!['Y']) { seq![1usize] } else { Seq::empty() };
    let c: Seq<usize> = if shown.contains(seq!['Z']) { seq![2usize] } else { Seq::empty() };
    a + b + c
}

/// The iteration limit handed to the geometry: at least one.
pub fn max_iterations_cap(max_iterations: u32) -> (r: u32)
    ensures
        r == if max_iterations >= 1 { max_iterations } else { 1 },
{
    if max_iterations >= 1 {
        max_iterations
    } else {
        1
    }
}


/// `s` holds each definition all of whose dependencies it holds.
pub open spec fn closed_under_dependencies(
    names: Seq<Seq<char>>,
    axes: Seq<(nat, Seq<Seq<char>>, Seq<int>)>,
    s: Set<usize>,
) -> bool {
    forall|i: usize|
        i < names.len() && (forall|j: usize| #[trigger] depends_on(names, axes, i as int, j as int) ==> s.contains(j))
            ==> #[trigger] s.contains(i)
}

proof fn lemma_order_prefix_closed(
    names: Seq<Seq<char>>,
    axes: Seq<(nat, Seq<Seq<char>>, Seq<int>)>,
    order: Seq<usize>,
    s: Set<usize>,
    p: int,
)
    requires
        dependencies_first(names, axes, order),
        forall|q: int| 0 <= q < order.len() ==> #[trigger] order[q] < names.len(),
        closed_under_dependencies(names, axes, s),
        0 <= p < order.len(),
    ensures
        s.contains(order[p]),
    decreases p,
{
    let i = order[p];
    assert forall|j: usize| #[trigger] depends_on(names, axes, i as int, j as int) implies s.contains(j) by {
        let q = choose|q: int| 0 <= q < p && #[trigger] order[q] == j as int;
        lemma_order_prefix_closed(names, axes, order, s, q);
    }
}

/// A resolution order resolves exactly the least set of definitions that
/// holds each definition all of whose dependencies it holds: what it
/// resolves lies in every such set, and is itself such a set.
pub proof fn lemma_resolution_least(
    names: Seq<Seq<char>>,
    axes: Seq<(nat, Seq<Seq<char>>, Seq<int>)>,
    order: Seq<usize>,
    s: Set<usize>,
)
    requires
        dependencies_first(names, axes, order),
        left_out_blocked(names, axes, order),
        forall|q: int| 0 <= q < order.len() ==> #[trigger] order[q] < names.len(),
        closed_under_dependencies(names, axes, s),
    ensures
        forall|q: int| 0 <= q < order.len() ==> s.contains(#[trigger] order[q]),
        closed_under_dependencies(names, axes, order.to_set()),
{
    assert forall|q: int| 0 <= q < order.len() implies s.contains(#[trigger] order[q]) by {
        lemma_order_prefix_closed(names, axes, order, s, q);
    }
    assert forall|i: usize|
        i < names.len() && (forall|j: usize| #[trigger] depends_on(names, axes, i as int, j as int) ==> order.to_set().contains(j))
        implies #[trigger] order.to_set().contains(i) by {
        if !order.contains(i) {
            let j = choose|j: usize| #[trigger] depends_on(names, axes, i as int, j as int) && !order.contains(j);
            assert(order.to_set().contains(j));
        }
    }
}

/// A generated name is new: no definition carries it.
pub proof fn lemma_generated_name_fresh(names: Seq<Seq<char>>)
    requires
        max_axis_number(names) < u32::MAX,
    ensures
        !names.contains(axis_prefix() + dec(max_axis_number(names) + 1)),
{
    let m = (max_axis_number(names) + 1) as nat;
    let x = axis_prefix() + dec(m);
    if names.contains(x) {
        let k = choose|k: int| 0 <= k < names.len() && names[k] == x;
        crate::text::lemma_dec_value(m);
        assert(x.take(5) =~= axis_prefix());
        assert(x.skip(5) =~= dec(m));
        assert(axis_number(x) == Some(m as u32));
        lemma_max_axis_number_bound(names, k);
    }
}

proof fn lemma_max_axis_number_bound(names: Seq<Seq<char>>, k: int)
    requires
        0 <= k < names.len(),
    ensures
        axis_number(names[k]) matches Some(n) ==> n <= max_axis_number(names),
    decreases names.len(),
{
    if k < names.len() - 1 {
        lemma_max_axis_number_bound(names.drop_last(), k);
        assert(names.drop_last()[k] == names[k]);
    }
}

/// `numbered(n)` is `1`, ..., `n`.
proof fn lemma_numbered(n: nat, k: int)
    requires
        0 <= k < n,
    ensures
        numbered(n).len() == n,
        numbered(n)[k] == dec((k + 1) as nat),
    decreases n,
{
    if k < n - 1 {
        lemma_numbered((n - 1) as nat, k);
    } else {
        if n > 1 {
            lemma_numbered((n - 1) as nat, 0);
        }
    }
    lemma_numbered_len(n);
}

proof fn lemma_numbered_len(n: nat)
    ensures
        numbered(n).len() == n,
    decreases n,
{
    if n > 0 {
        lemma_numbered_len((n - 1) as nat);
    }
}

proof fn lemma_strip_sub(name: Seq<char>, suf: Seq<char>)
    requires
        forall|j: int| 0 <= j < suf.len() ==> suf[j] != '_',
        parse_u32_spec(suf) is Some || suf == seq!['A'] || suf == seq!['B'],
    ensures
        strip_sub_index_spec(sub_name(name, suf)) == name,
{
    let full = sub_name(name, suf);
    let pos = name.len() as int;
    assert(full[pos] == '_');
    assert forall|j: int| pos < j < full.len() implies full[j] != '_' by {
        assert(full[j] == suf[j - pos - 1]);
    }
    let li = last_index_of(full, '_').unwrap();
    assert(li == pos) by {
        if li < pos {
            assert(full[pos] != '_');
        }
    }
    assert(full.subrange(pos + 1, full.len() as int) =~= suf);
    assert(full.take(pos) =~= name);
}

proof fn lemma_dec_parses(d: nat)
    requires
        d <= u32::MAX,
    ensures
        parse_u32_spec(dec(d)) == Some(d as u32),
        forall|j: int| 0 <= j < dec(d).len() ==> dec(d)[j] != '_',
{
    crate::text::lemma_dec_value(d);
    assert forall|j: int| 0 <= j < dec(d).len() implies dec(d)[j] != '_' by {
        assert(crate::text::is_digit(dec(d)[j]));
    }
}

/// The names of an axis's outputs strip back to the axis's name: for each
/// suffix `s` it produces, `name_s` has base name `name`.
pub proof fn lemma_outputs_strip_to_base(name: Seq<char>, v: (nat, Seq<Seq<char>>, Seq<int>), k: int)
    requires
        v.0 == 6 ==> v.2.len() > 0 && 0 <= v.2[0] <= u32::MAX,
        0 <= k < suffixes_of(v).len(),
    ensures
        strip_sub_index_spec(sub_name(name, suffixes_of(v)[k])) == name,
{
    let suf = suffixes_of(v)[k];
    if v.0 == 6 {
        lemma_numbered_len(v.2[0] as nat);
        lemma_numbered(v.2[0] as nat, k);
        lemma_dec_parses((k + 1) as nat);
        lemma_strip_sub(name, suf);
    } else {
        assert(v.0 == 5);
        assert(suf == seq!['A'] || suf == seq!['B']);
        assert forall|j: int| 0 <= j < suf.len() implies suf[j] != '_' by {}
        lemma_strip_sub(name, suf);
    }
}


/// Syncing orders is idempotent: a synced entry stays as it is and reports
/// no change when synced again.
pub proof fn lemma_sync_idempotent(defs: AxisDefinitions, e: (Seq<char>, u32, bool, bool))
    ensures
        synced_entry(defs, synced_entry(defs, e)) == synced_entry(defs, e),
        !sync_changes(defs, synced_entry(defs, e)),
{
}

/// Renaming to a name no definition carries and back restores the names.
pub proof fn lemma_rename_back(names: Seq<Seq<char>>, old: Seq<char>, new: Seq<char>)
    requires
        !names.contains(new),
    ensures
        rename_in(rename_in(names, old, new), new, old) == names,
{
    assert forall|k: int| 0 <= k < names.len() implies rename_in(rename_in(names, old, new), new, old)[k] == names[k] by {
        assert(names[k] != new);
    }
    assert(rename_in(rename_in(names, old, new), new, old) =~= names);
}

/// After a delete, no definition carries the name, and the others keep
/// their order.
pub proof fn lemma_delete_removes(defs: Seq<AxisDefinition>, name: Seq<char>)
    ensures
        !defs.filter(|d: AxisDefinition| d.name@ != name).map_values(|d: AxisDefinition| d.name@).contains(name),
        forall|d: AxisDefinition| defs.contains(d) && d.name@ != name ==> defs.filter(|d: AxisDefinition| d.name@ != name).contains(d),
{
    let pred = |d: AxisDefinition| d.name@ != name;
    let f = defs.filter(pred);
    let m = f.map_values(|d: AxisDefinition| d.name@);
    if m.contains(name) {
        let k = choose|k: int| 0 <= k < m.len() && m[k] == name;
        defs.lemma_filter_pred(pred, k);
    }
    assert forall|d: AxisDefinition| defs.contains(d) && d.name@ != name implies f.contains(d) by {
        let k = choose|k: int| 0 <= k < defs.len() && defs[k] == d;
        defs.lemma_filter_contains(pred, k);
    }
}


// ---------------------------------------------------------------------------
// Editing the definitions
// ---------------------------------------------------------------------------

/// Adds `name` to a list used as a set, unless it is there; says whether it
/// was added.
fn insert_name(list: &mut Vec<String>, name: &str) -> (added: bool)
    ensures
        final(list).deep_view().to_set() == old(list).deep_view().to_set().insert(name@),
        added == !old(list).deep_view().to_set().contains(name@),
{
    let ghost l0 = list.deep_view();
    let mut k: usize = 0;
    while k < list.len()
        invariant
            k <= list@.len(),
            l0 == list.deep_view(),
            forall|j: int| 0 <= j < k ==> l0[j] != name@,
        decreases list.len() - k,
    {
        assert(l0[k as int] == list@[k as int]@);
        if same_text(&list[k], name) {
            assert(l0.to_set().contains(name@));
            assert(l0.to_set().insert(name@) =~= l0.to_set());
            return false;
        }
        k = k + 1;
    }
    list.push(string_from(name));
    assert(list.deep_view() =~= l0.push(name@));
    proof {
        lemma_push_to_set(l0, name@);
        if l0.to_set().contains(name@) {
            let j = choose|j: int| 0 <= j < l0.len() && l0[j] == name@;
        }
    }
    true
}

impl AxisDefinitions {
    /// Shows every definition and the built-in axes; says whether anything
    /// new is shown.
    pub fn show_all(&mut self) -> (changed: bool)
        ensures
            final(self).visible() == old(self).visible().union(old(self).names().to_set()).union(
                set![seq!['X'], seq!['Y'], seq!['Z']],
            ),
            changed == !(old(self).names().to_set().subset_of(old(self).visible()) && set![
                seq!['X'],
                seq!['Y'],
                seq!['Z'],
            ].subset_of(old(self).visible())),
            final(self).definitions@ == old(self).definitions@,
            final(self).resolved@ == old(self).resolved@,
    {
        let ghost v0 = self.visible();
        let ghost names = self.names();
        let keys = self.definitions_keys();
        let mut changed = false;
        let mut i: usize = 0;
        while i < keys.len()
            invariant
                i <= keys@.len(),
                keys.deep_view() == names,
                names == self.names(),
                self.visible() == v0.union(names.take(i as int).to_set()),
                changed == !names.take(i as int).to_set().subset_of(v0),
                self.definitions@ == old(self).definitions@,
                self.resolved@ == old(self).resolved@,
            decreases keys.len() - i,
        {
            assert(keys.deep_view()[i as int] == keys@[i as int]@);
            let ghost before = self.visible();
            let added = insert_name(&mut self.visible_axes, keys[i].as_str());
            proof {
                let t = names.take(i as int);
                let t1 = names.take(i + 1);
                assert(t1 =~= t.push(names[i as int]));
                lemma_push_to_set(t, names[i as int]);
                assert(self.visible() =~= v0.union(t1.to_set()));
                if added {
                    assert(!t1.to_set().subset_of(v0));
                }
            }
            changed = changed || added;
            i = i + 1;
        }
        assert(names.take(names.len() as int) =~= names);
        let ghost mid = self.visible();
        let ax = insert_name(&mut self.visible_axes, "X");
        let ay = insert_name(&mut self.visible_axes, "Y");
        let az = insert_name(&mut self.visible_axes, "Z");
        proof {
            reveal_strlit("X");
            reveal_strlit("Y");
            reveal_strlit("Z");
            assert("X"@ =~= seq!['X']);
            assert("Y"@ =~= seq!['Y']);
            assert("Z"@ =~= seq!['Z']);
            assert(self.visible() =~= v0.union(names.to_set()).union(set![seq!['X'], seq!['Y'], seq!['Z']]));
        }
        changed || ax || ay || az
    }

    /// Stops showing anything; says whether something was shown.
    pub fn hide_all(&mut self) -> (changed: bool)
        ensures
            changed == (old(self).visible_axes@.len() > 0),
            final(self).visible_axes@.len() == 0,
            final(self).definitions@ == old(self).definitions@,
            final(self).resolved@ == old(self).resolved@,
    {
        if self.visible_axes.len() > 0 {
            self.visible_axes.clear();
            true
        } else {
            false
        }
    }

    /// Shows `name` when it is hidden, hides it when it is shown.
    pub fn toggle_visible(&mut self, name: &str)
        ensures
            final(self).visible() == if old(self).visible().contains(name@) {
                old(self).visible().remove(name@)
            } else {
                old(self).visible().insert(name@)
            },
            final(self).definitions@ == old(self).definitions@,
            final(self).resolved@ == old(self).resolved@,
    {
        if self.is_visible(name) {
            let mut list: Vec<String> = Vec::new();
            std::mem::swap(&mut list, &mut self.visible_axes);
            self.visible_axes = without(list, name);
        } else {
            insert_name(&mut self.visible_axes, name);
        }
    }

    /// Adds a shown vector definition under a generated name, returned.
    pub fn add_new_axis(&mut self) -> (name: String)
        requires
            max_axis_number(old(self).names()) < u32::MAX,
        ensures
            name@ == axis_prefix() + dec(max_axis_number(old(self).names()) + 1),
            final(self).definitions@.len() == old(self).definitions@.len() + 1,
            final(self).definitions@.drop_last() == old(self).definitions@,
            final(self).definitions@.last().name@ == name@,
            final(self).definitions@.last().axis@ == default_view(0),
            final(self).visible() == old(self).visible().insert(name@),
            final(self).resolved@ == old(self).resolved@,
    {
        let name = self.generate_name();
        let ghost d0 = self.definitions@;
        self.definitions.push(AxisDefinition { name: string_copy(&name), axis: DerivedAxis::default_for_variant(0) });
        assert(self.definitions@.drop_last() =~= d0);
        insert_name(&mut self.visible_axes, name.as_str());
        name
    }

    /// Moves the definition at `idx` one place up.
    pub fn move_up(&mut self, idx: usize)
        requires
            0 < idx < old(self).definitions@.len(),
        ensures
            final(self).definitions@ == old(self).definitions@.update(idx - 1, old(self).definitions@[idx as int]).update(
                idx as int,
                old(self).definitions@[idx - 1],
            ),
            final(self).visible_axes@ == old(self).visible_axes@,
            final(self).resolved@ == old(self).resolved@,
    {
        let ghost d0 = self.definitions@;
        let item = self.definitions.remove(idx);
        self.definitions.insert(idx - 1, item);
        assert(self.definitions@ =~= d0.update(idx - 1, d0[idx as int]).update(idx as int, d0[idx - 1]));
    }

    /// Makes the first definition named `name` a fresh one of the variant at
    /// position `idx`.
    pub fn set_variant(&mut self, name: &str, idx: usize)
        ensures
            match first_index_of(old(self).names(), name@) {
                Some(k) => {
                    &&& final(self).names() == old(self).names()
                    &&& final(self).axes() == old(self).axes().update(k, default_view(idx as nat))
                },
                None => final(self).definitions@ == old(self).definitions@,
            },
            final(self).visible_axes@ == old(self).visible_axes@,
            final(self).resolved@ == old(self).resolved@,
    {
        match self.position_of(name) {
            Some(k) => {
                let ghost d0 = self.definitions@;
                self.definitions[k].axis = DerivedAxis::default_for_variant(idx);
                proof {
                    assert forall|j: int| 0 <= j < d0.len() && j != k implies self.definitions@[j] == d0[j] by {}
                    assert(self.names() =~= d0.map_values(|d: AxisDefinition| d.name@));
                    assert(self.axes() =~= d0.map_values(|d: AxisDefinition| d.axis@).update(k as int, default_view(idx as nat)));
                }
            },
            None => {},
        }
    }

    /// A rename asked for in the editor: the new name is trimmed; a blank
    /// one, or the old name itself, changes nothing. Otherwise the
    /// definition takes a free form of the name (see `make_unique_name`), and
    /// the references and the puzzle's axes follow. Says whether it renamed.
    pub fn apply_rename(&mut self, entries: &mut Vec<AxisEntry>, old_name: &str, desired: &str) -> (renamed_to: Option<String>)
        requires
            old(self).definitions@.len() < u32::MAX - 2,
        ensures
            ({
                let t = crate::text::trim(desired@);
                if t.len() == 0 || t == old_name@ {
                    &&& renamed_to is None
                    &&& final(self).definitions@ == old(self).definitions@
                    &&& final(self).visible_axes@ == old(self).visible_axes@
                    &&& final(entries)@ == old(entries)@
                } else {
                    &&& renamed_to is Some
                    &&& ({
                        let n = renamed_to.unwrap()@;
                        let names = old(self).names();
                        let sufs = rename_suffixes(names, old(self).axes(), old_name@, n);
                        &&& is_free(names, n)
                        &&& (is_free(names, t) ==> n == t)
                        &&& (!is_free(names, t) ==> exists|i: nat| 2 <= i && n == numbered_name(t, i)
                            && forall|j: nat| 2 <= j < i ==> !is_free(names, #[trigger] numbered_name(t, j)))
                        &&& final(self).names() == rename_in(names, old_name@, n)
                        &&& if n == old_name@ {
                            &&& final(self).axes() == old(self).axes()
                            &&& final(self).visible() == old(self).visible()
                        } else {
                            &&& final(self).axes() == rename_passes(
                                rename_in(names, old_name@, n),
                                old(self).axes(),
                                old_name@,
                                n,
                                sufs,
                                names.len(),
                            )
                            &&& final(self).visible() == if old(self).visible().contains(old_name@) {
                                old(self).visible().remove(old_name@).insert(n)
                            } else {
                                old(self).visible()
                            }
                        }
                        &&& final(entries)@.len() == old(entries)@.len()
                        &&& forall|i: int| 0 <= i < old(entries)@.len() ==> (#[trigger] final(entries)@[i])@ == (
                            renamed_axis_name(old(entries)@[i]@.0, old_name@, n, sufs),
                            old(entries)@[i]@.1,
                            old(entries)@[i]@.2,
                            old(entries)@[i]@.3,
                        )
                    })
                }
            }),
            final(self).resolved@ == old(self).resolved@,
    {
        let cs = chars_of(desired);
        let (a, b) = crate::text::trim_bounds(&cs, 0, cs.len());
        assert(cs@.subrange(0, cs@.len() as int) =~= desired@);
        let trimmed = string_of_range(&cs, a, b);
        if a == b || same_text(&trimmed, old_name) {
            return None;
        }
        let ghost before = *self;
        let new_name = self.make_unique_name(trimmed.as_str());
        self.do_rename(old_name, new_name.as_str());
        let ghost n = new_name@;
        let ghost sufs = rename_suffixes(before.names(), before.axes(), old_name@, n);
        proof {
            if n == old_name@ {
                assert(rename_in(before.names(), old_name@, n) =~= before.names());
            }
            lemma_renamed_suffixes(before, *self, old_name@, n);
        }
        let sufs_vec = match self.get_definition(new_name.as_str()) {
            Some(a) => a.output_suffixes(),
            None => Vec::new(),
        };
        proof {
            assert(sufs_vec.deep_view() =~= sufs);
        }
        rename_axis_in_puzzle_params(entries, old_name, new_name.as_str(), &sufs_vec);
        Some(new_name)
    }
}

/// The question asked before deleting a definition that others refer to.
pub fn delete_question(dependents: &Vec<String>) -> (r: String)
    requires
        dependents@.len() > 0,
    ensures
        r@ == if dependents@.len() > 1 {
            "This definition is referenced by "@ + dependents@[0]@ + " and "@ + dec((dependents@.len() - 1) as nat)
                + " other(s). Continue deleting?"@
        } else {
            "This definition is referenced by "@ + dependents@[0]@ + ". Continue deleting?"@
        },
{
    let mut r = string_from("This definition is referenced by ");
    r.append(dependents[0].as_str());
    let others = dependents.len() - 1;
    if others > 0 {
        r.append(" and ");
        push_decimal(&mut r, others);
        r.append(" other(s). Continue deleting?");
    } else {
        r.append(". Continue deleting?");
    }
    r
}

/// The label of the puzzle's axis at position `idx`: `A` to `Z`, then `?`.
pub fn axis_label(idx: usize) -> (c: char)
    ensures
        c == if idx < 26 {
            (('A' as int) + idx) as char
        } else {
            '?'
        },
{
    if idx < 26 {
        let code = 65u8 + (idx as u8);
        code as char
    } else {
        '?'
    }
}

} // verus!
