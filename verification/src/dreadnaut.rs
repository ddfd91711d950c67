//! Jobs sent to the dreadnaut worker and the hashes it answers with.
//!
//! Scripts are sent in batches; every bracketed hash in the worker's output
//! answers the oldest job still waiting.

use vstd::prelude::*;
use vstd::string::StringExecFns;
use crate::text::{chars_of, split_ranges, trim_bounds, trim, split_seq, pieces, ranges_within, push_char};

verus! {

pub struct DreadnautManager {
    pub is_computing: bool,
    /// Jobs sent, oldest first, that have no answer yet.
    pub queue: Vec<usize>,
    pub completed_jobs: Vec<(usize, String)>,
}

pub open spec fn is_first_char(s: Seq<char>, c: char, p: int) -> bool {
    0 <= p < s.len() && s[p] == c && forall|k: int| 0 <= k < p ==> #[trigger] s[k] != c
}

pub open spec fn is_last_char(s: Seq<char>, c: char, p: int) -> bool {
    0 <= p < s.len() && s[p] == c && forall|k: int| p < k < s.len() ==> #[trigger] s[k] != c
}

/// The hash on a line: from its first `[` to its last `]`, when the `]`
/// comes after the `[`.
pub open spec fn bracketed(line: Seq<char>) -> Option<Seq<char>> {
    let t = trim(line);
    if t.contains('[') && t.contains(']') {
        let start = choose|p: int| is_first_char(t, '[', p);
        let end = choose|p: int| is_last_char(t, ']', p);
        if end > start {
            Some(t.subrange(start, end + 1))
        } else {
            None
        }
    } else {
        None
    }
}

pub open spec fn hashes_in(lines: Seq<Seq<char>>) -> Seq<Seq<char>>
    decreases lines.len(),
{
    if lines.len() == 0 {
        Seq::empty()
    } else {
        match bracketed(lines.last()) {
            Some(h) => hashes_in(lines.drop_last()).push(h),
            None => hashes_in(lines.drop_last()),
        }
    }
}

/// The hashes in the worker's output, one per line at most, in order.
pub open spec fn output_hashes(s: Seq<char>) -> Seq<Seq<char>> {
    hashes_in(split_seq(s, seq!['\n']))
}

proof fn lemma_first_char_unique(s: Seq<char>, c: char, p: int, q: int)
    requires
        is_first_char(s, c, p),
        is_first_char(s, c, q),
    ensures
        p == q,
{
    if p < q {
        assert(s[p] != c);
    } else if q < p {
        assert(s[q] != c);
    }
}

proof fn lemma_last_char_unique(s: Seq<char>, c: char, p: int, q: int)
    requires
        is_last_char(s, c, p),
        is_last_char(s, c, q),
    ensures
        p == q,
{
    if p < q {
        assert(s[q] != c);
    } else if q < p {
        assert(s[p] != c);
    }
}

/// The hash on `s[lo..hi]`, if it holds one.
fn bracketed_exec(cs: &[char], lo: usize, hi: usize) -> (r: Option<String>)
    requires
        lo <= hi <= cs@.len(),
    ensures
        r is None <==> bracketed(cs@.subrange(lo as int, hi as int)) is None,
        r matches Some(h) ==> bracketed(cs@.subrange(lo as int, hi as int)) == Some(h@),
{
    let (a, b) = trim_bounds(cs, lo, hi);
    let ghost t = cs@.subrange(a as int, b as int);
    let mut i = a;
    while i < b && cs[i] != '['
        invariant
            a <= i <= b <= cs@.len(),
            t == cs@.subrange(a as int, b as int),
            forall|k: int| 0 <= k < i - a ==> #[trigger] t[k] != '[',
        decreases b - i,
    {
        assert(t[i - a] == cs@[i as int]);
        i = i + 1;
    }
    if i == b {
        proof {
            if t.contains('[') {
                let k = choose|k: int| 0 <= k < t.len() && t[k] == '[';
                assert(t[k] != '[');
            }
        }
        return None;
    }
    let start = i;
    assert(t[start - a] == '[');
    assert(is_first_char(t, '[', start - a));
    let mut j = b;
    while j > a && cs[j - 1] != ']'
        invariant
            a <= j <= b <= cs@.len(),
            t == cs@.subrange(a as int, b as int),
            forall|k: int| j - a <= k < t.len() ==> #[trigger] t[k] != ']',
        decreases j - a,
    {
        assert(t[j - 1 - a] == cs@[j - 1]);
        j = j - 1;
    }
    if j == a {
        proof {
            if t.contains(']') {
                let k = choose|k: int| 0 <= k < t.len() && t[k] == ']';
                assert(t[k] != ']');
            }
        }
        return None;
    }
    let end = j - 1;
    assert(t[end - a] == ']');
    assert(is_last_char(t, ']', end - a));
    proof {
        let p = choose|p: int| is_first_char(t, '[', p);
        lemma_first_char_unique(t, '[', p, start - a);
        let q = choose|q: int| is_last_char(t, ']', q);
        lemma_last_char_unique(t, ']', q, end - a);
    }
    if end > start {
        let mut h = String::new();
        let mut k = start;
        while k <= end
            invariant
                start <= k <= end + 1,
                end < b <= cs@.len(),
                h@ == cs@.subrange(start as int, k as int),
            decreases end + 1 - k,
        {
            push_char(&mut h, cs[k]);
            k = k + 1;
            assert(h@ =~= cs@.subrange(start as int, k as int));
        }
        assert(t.subrange(start - a, end - a + 1) =~= cs@.subrange(start as int, end + 1));
        Some(h)
    } else {
        None
    }
}

/// Every hash in the worker's output, in order.
pub fn extract_hashes(s: &str) -> (r: Vec<String>)
    ensures
        r@.len() == output_hashes(s@).len(),
        forall|i: int| 0 <= i < r@.len() ==> (#[trigger] r@[i])@ == output_hashes(s@)[i],
{
    let cs = chars_of(s);
    let nl = vec!['\n'];
    assert(nl@ =~= seq!['\n']);
    let lines = split_ranges(cs.as_slice(), 0, cs.len(), nl.as_slice());
    assert(cs@.subrange(0, cs@.len() as int) =~= s@);
    let ghost ls = split_seq(s@, seq!['\n']);
    let mut r: Vec<String> = Vec::new();
    let mut k: usize = 0;
    assert(ls.take(0) =~= Seq::<Seq<char>>::empty());
    while k < lines.len()
        invariant
            k <= lines@.len(),
            cs@ == s@,
            ranges_within(lines@, 0, cs@.len() as int),
            pieces(cs@, lines@) == ls,
            r@.len() == hashes_in(ls.take(k as int)).len(),
            forall|i: int| 0 <= i < r@.len() ==> (#[trigger] r@[i])@ == hashes_in(ls.take(k as int))[i],
        decreases lines.len() - k,
    {
        let (a, b) = lines[k];
        assert(a <= b <= cs@.len()) by {
            assert(lines@[k as int] == (a, b));
        }
        proof {
            assert(ls[k as int] == cs@.subrange(a as int, b as int));
            assert(ls.take(k + 1).drop_last() =~= ls.take(k as int));
            assert(ls.take(k + 1).last() == ls[k as int]);
        }
        match bracketed_exec(cs.as_slice(), a, b) {
            Some(h) => {
                r.push(h);
            },
            None => {},
        }
        k = k + 1;
    }
    assert(ls.take(lines@.len() as int) =~= ls);
    r
}

impl DreadnautManager {
    pub fn new() -> (r: Self)
        ensures
            !r.is_computing,
            r.queue@.len() == 0,
            r.completed_jobs@.len() == 0,
    {
        DreadnautManager { is_computing: false, queue: Vec::new(), completed_jobs: Vec::new() }
    }

    /// Queues a batch of scripts with their job ids. The result is the
    /// batch's whole script, to be sent when it is not empty and a worker
    /// is running; the manager then computes.
    pub fn enqueue_batch(&mut self, jobs: Vec<(usize, String)>, worker_running: bool) -> (r:
        Option<String>)
        ensures
            final(self).queue@.len() == old(self).queue@.len() + jobs@.len(),
            final(self).queue@.take(old(self).queue@.len() as int) == old(self).queue@,
            forall|i: int|
                0 <= i < jobs@.len() ==> final(self).queue@[old(self).queue@.len() + i]
                    == (#[trigger] jobs@[i]).0,
            final(self).completed_jobs == old(self).completed_jobs,
            ({
                let script = batch_script(jobs@);
                if script.len() > 0 && worker_running {
                    &&& r matches Some(t) && t@ == script
                    &&& final(self).is_computing
                } else {
                    &&& r is None
                    &&& final(self).is_computing == old(self).is_computing
                }
            }),
    {
        let mut full_script = String::new();
        let mut i: usize = 0;
        let ghost q0 = self.queue@;
        while i < jobs.len()
            invariant
                i <= jobs@.len(),
                full_script@ == batch_script(jobs@.take(i as int)),
                self.queue@.len() == q0.len() + i,
                self.queue@.take(q0.len() as int) == q0,
                forall|m: int| 0 <= m < i ==> self.queue@[q0.len() + m] == (#[trigger] jobs@[m]).0,
                self.completed_jobs == old(self).completed_jobs,
                self.is_computing == old(self).is_computing,
            decreases jobs.len() - i,
        {
            let (request_id, script) = (&jobs[i].0, &jobs[i].1);
            full_script.append(script.as_str());
            self.queue.push(*request_id);
            proof {
                assert(jobs@.take(i + 1).drop_last() =~= jobs@.take(i as int));
                assert(self.queue@.take(q0.len() as int) =~= q0);
            }
            i = i + 1;
        }
        assert(jobs@.take(jobs@.len() as int) =~= jobs@);
        if !full_script.as_str().is_empty() && worker_running {
            self.is_computing = true;
            Some(full_script)
        } else {
            None
        }
    }

    /// Pairs answers with the oldest waiting jobs; answers beyond the
    /// waiting jobs are dropped. When there were answers and no job waits
    /// any more, the computation is over: the result says so.
    pub fn process_responses(&mut self, responses: Vec<String>) -> (r: bool)
        ensures
            ({
                let k = if responses@.len() < old(self).queue@.len() {
                    responses@.len()
                } else {
                    old(self).queue@.len()
                };
                &&& final(self).queue@ == old(self).queue@.skip(k as int)
                &&& final(self).completed_jobs@.len() == old(self).completed_jobs@.len() + k
                &&& final(self).completed_jobs@.take(old(self).completed_jobs@.len() as int)
                    == old(self).completed_jobs@
                &&& forall|i: int|
                    0 <= i < k ==> (#[trigger] final(self).completed_jobs@[old(self).completed_jobs@.len() + i]).0 == old(self).queue@[i] && final(self).completed_jobs@[old(self).completed_jobs@.len() + i].1@ == responses@[i]@
            }),
            r == (responses@.len() > 0 && final(self).queue@.len() == 0),
            final(self).is_computing == if r {
                false
            } else {
                old(self).is_computing
            },
    {
        let ghost q0 = self.queue@;
        let ghost c0 = self.completed_jobs@;
        let mut i: usize = 0;
        while i < responses.len()
            invariant
                i <= responses@.len(),
                self.queue@ == q0.skip(if i < q0.len() { i as int } else { q0.len() as int }),
                self.completed_jobs@.len() == c0.len() + if i < q0.len() {
                    i as int
                } else {
                    q0.len() as int
                },
                self.completed_jobs@.take(c0.len() as int) == c0,
                forall|m: int|
                    0 <= m < (if i < q0.len() { i as int } else { q0.len() as int }) ==> (
                    #[trigger] self.completed_jobs@[c0.len() + m]).0 == q0[m]
                        && self.completed_jobs@[c0.len() + m].1@ == responses@[m]@,
                self.is_computing == old(self).is_computing,
            decreases responses.len() - i,
        {
            if self.queue.len() > 0 {
                let request_id = self.queue.remove(0);
                let res = copy_string(&responses[i]);
                self.completed_jobs.push((request_id, res));
                proof {
                    assert(self.queue@ =~= q0.skip(i + 1));
                    assert(self.completed_jobs@.take(c0.len() as int) =~= c0);
                }
            }
            i = i + 1;
        }
        if responses.len() > 0 && self.queue.len() == 0 {
            self.is_computing = false;
            true
        } else {
            false
        }
    }
}

fn copy_string(s: &String) -> (r: String)
    ensures
        r@ == s@,
{
    String::from_str(s.as_str())
}

/// The scripts of a batch laid end to end.
pub open spec fn batch_script(jobs: Seq<(usize, String)>) -> Seq<char>
    decreases jobs.len(),
{
    if jobs.len() == 0 {
        Seq::empty()
    } else {
        batch_script(jobs.drop_last()) + jobs.last().1@
    }
}

} // verus!
