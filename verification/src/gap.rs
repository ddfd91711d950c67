//! The job protocol spoken with the GAP worker.
//!
//! Commands are queued; when GAP waits on its input, the next command is
//! wrapped between `---START_<id>---` and `---END_<id>---` prints, and the
//! output between the two markers is read back as the job's result: the size
//! of the group and its structure description, one per line.

use vstd::prelude::*;
use vstd::string::StringExecFns;
use std::collections::VecDeque;
use crate::text::{
    dec, push_char, push_decimal, chars_of, string_of, find_pattern, split_ranges, trim_bounds,
    trim, split_seq, has_match, is_first_match, pieces, ranges_within,
};

verus! {

#[derive(Clone, Debug, PartialEq)]
pub struct GapGroupResult {
    pub size: String,
    pub structure: String,
}

/// Where the GAP session stands (the loading progress is kept by the caller).
pub enum GapState {
    NotStarted,
    Loading(String),
    Ready,
    Error(String),
}

/// Queued and running GAP jobs, their results, and the console history.
pub struct GapManager {
    pub state: GapState,
    pub output_history: String,
    /// Jobs sent to GAP whose start marker has not been seen yet.
    pub queue: Vec<usize>,
    /// Commands waiting to be sent.
    pub pending_commands: VecDeque<(usize, String)>,
    pub completed_jobs: Vec<(usize, GapGroupResult)>,
    /// Output of the running job so far.
    pub current_buffer: String,
    pub current_job: Option<usize>,
}

pub open spec fn start_marker(id: nat) -> Seq<char> {
    "---START_"@ + dec(id) + "---"@
}

pub open spec fn end_marker(id: nat) -> Seq<char> {
    "---END_"@ + dec(id) + "---"@
}

/// The position of the first occurrence of `pat` in `s`.
pub open spec fn first_index(s: Seq<char>, pat: Seq<char>) -> int {
    choose|p: int| is_first_match(s, pat, p)
}

/// Whether this output starts the first queued job.
pub open spec fn starts_job(current: Option<usize>, queue: Seq<usize>, s: Seq<char>) -> bool {
    current is None && queue.len() > 0 && has_match(s, start_marker(queue[0] as nat))
}

/// The output after the start marker, one leading newline dropped.
pub open spec fn after_start(s: Seq<char>, id: nat) -> Seq<char> {
    let rest = s.skip(first_index(s, start_marker(id)) + start_marker(id).len());
    if rest.len() > 0 && rest[0] == '\n' {
        rest.drop_first()
    } else {
        rest
    }
}

/// The output as it is kept: without what precedes a start marker.
pub open spec fn kept_output(current: Option<usize>, queue: Seq<usize>, s: Seq<char>) -> Seq<
    char,
> {
    if starts_job(current, queue, s) {
        after_start(s, queue[0] as nat)
    } else {
        s
    }
}

/// The job that this output belongs to.
pub open spec fn output_job(current: Option<usize>, queue: Seq<usize>, s: Seq<char>) -> Option<
    usize,
> {
    if starts_job(current, queue, s) {
        Some(queue[0])
    } else {
        current
    }
}

pub open spec fn or_unknown(s: Seq<char>) -> Seq<char> {
    if s.len() == 0 {
        "Unknown"@
    } else {
        s
    }
}

/// The size and structure that a job printed: the first two lines of its
/// trimmed output, each trimmed, `Unknown` where empty or missing.
pub open spec fn result_size(text: Seq<char>) -> Seq<char> {
    or_unknown(trim(split_seq(trim(text), seq!['\n'])[0]))
}

pub open spec fn result_structure(text: Seq<char>) -> Seq<char> {
    let lines = split_seq(trim(text), seq!['\n']);
    or_unknown(
        if lines.len() > 1 {
            trim(lines[1])
        } else {
            Seq::empty()
        },
    )
}

/// The queued commands, each as its job number and text.
pub open spec fn pending_view(s: Seq<(usize, String)>) -> Seq<(usize, Seq<char>)> {
    s.map_values(|p: (usize, String)| (p.0, p.1@))
}

/// `Print("---START_<id>---\n");`, the command, `Print("---END_<id>---\n");`,
/// each on a line of its own.
pub open spec fn wrapped_command(id: nat, cmd: Seq<char>) -> Seq<char> {
    "Print(\"---START_"@ + dec(id) + "---\\n\");\n"@ + cmd + "\nPrint(\"---END_"@ + dec(id)
        + "---\\n\");\n"@
}

/// The text written to GAP's input: the command, ending in a newline.
pub open spec fn input_line(cmd: Seq<char>) -> Seq<char> {
    if cmd.len() > 0 && cmd.last() == '\n' {
        cmd
    } else {
        cmd.push('\n')
    }
}

pub open spec fn is_ready(s: GapState) -> bool {
    s is Ready
}

/// Appends `cs[lo..hi]`.
fn push_chars(s: &mut String, cs: &[char], lo: usize, hi: usize)
    requires
        lo <= hi <= cs@.len(),
    ensures
        final(s)@ == old(s)@ + cs@.subrange(lo as int, hi as int),
{
    let mut i = lo;
    while i < hi
        invariant
            lo <= i <= hi <= cs@.len(),
            s@ == old(s)@ + cs@.subrange(lo as int, i as int),
        decreases hi - i,
    {
        push_char(s, cs[i]);
        i = i + 1;
        assert(s@ =~= old(s)@ + cs@.subrange(lo as int, i as int));
    }
}

fn marker(prefix: &str, id: usize) -> (r: Vec<char>)
    ensures
        r@ == prefix@ + dec(id as nat) + "---"@,
{
    let mut m = String::from_str(prefix);
    push_decimal(&mut m, id);
    m.append("---");
    chars_of(m.as_str())
}

fn or_unknown_exec(cs: &[char], lo: usize, hi: usize) -> (r: String)
    requires
        lo <= hi <= cs@.len(),
    ensures
        r@ == or_unknown(cs@.subrange(lo as int, hi as int)),
{
    if lo == hi {
        String::from_str("Unknown")
    } else {
        let mut s = String::new();
        push_chars(&mut s, cs, lo, hi);
        assert(s@ =~= cs@.subrange(lo as int, hi as int));
        s
    }
}

/// The size and structure lines of a job's output.
fn read_group_result(text: &String) -> (r: GapGroupResult)
    ensures
        r.size@ == result_size(text@),
        r.structure@ == result_structure(text@),
{
    let cs = chars_of(text.as_str());
    let (a, b) = trim_bounds(cs.as_slice(), 0, cs.len());
    assert(cs@.subrange(0, cs@.len() as int) =~= cs@);
    let nl = vec!['\n'];
    assert(nl@ =~= seq!['\n']);
    let lines = split_ranges(cs.as_slice(), a, b, nl.as_slice());
    let ghost ls = split_seq(trim(text@), seq!['\n']);
    proof {
        crate::text::lemma_split_nonempty(trim(text@), seq!['\n']);
    }
    let (l0, h0) = lines[0];
    assert(ranges_within(lines@, a as int, b as int));
    assert(lines@[0] == (l0, h0));
    assert(ls[0] == cs@.subrange(l0 as int, h0 as int));
    let (x0, y0) = trim_bounds(cs.as_slice(), l0, h0);
    let size = or_unknown_exec(cs.as_slice(), x0, y0);
    let structure = if lines.len() > 1 {
        let (l1, h1) = lines[1];
        assert(lines@[1] == (l1, h1));
        assert(ls[1] == cs@.subrange(l1 as int, h1 as int));
        let (x1, y1) = trim_bounds(cs.as_slice(), l1, h1);
        or_unknown_exec(cs.as_slice(), x1, y1)
    } else {
        assert(cs@.subrange(0, 0) =~= Seq::<char>::empty());
        or_unknown_exec(cs.as_slice(), 0, 0)
    };
    GapGroupResult { size, structure }
}

impl GapManager {
    pub fn new() -> (r: Self)
        ensures
            r.state is NotStarted,
            r.output_history@ == "GAP quiet mode output will appear here.\n"@,
            r.queue@.len() == 0,
            r.pending_commands@.len() == 0,
            r.completed_jobs@.len() == 0,
            r.current_buffer@.len() == 0,
            r.current_job is None,
    {
        GapManager {
            state: GapState::NotStarted,
            output_history: String::from_str("GAP quiet mode output will appear here.\n"),
            queue: Vec::new(),
            pending_commands: VecDeque::new(),
            completed_jobs: Vec::new(),
            current_buffer: String::new(),
            current_job: None,
        }
    }

    /// A `status` message: the session is loading with this status text.
    pub fn on_status(&mut self, status: String)
        ensures
            final(self).state matches GapState::Loading(s) && s@ == status@,
            final(self).output_history == old(self).output_history,
            final(self).queue == old(self).queue,
            final(self).completed_jobs == old(self).completed_jobs,
            final(self).current_job == old(self).current_job,
            final(self).pending_commands == old(self).pending_commands,
            final(self).current_buffer == old(self).current_buffer,
    {
        self.state = GapState::Loading(status);
    }

    /// A `ready` message.
    pub fn on_ready(&mut self)
        ensures
            final(self).state is Ready,
            final(self).output_history == old(self).output_history,
            final(self).queue == old(self).queue,
            final(self).completed_jobs == old(self).completed_jobs,
            final(self).current_job == old(self).current_job,
            final(self).pending_commands == old(self).pending_commands,
            final(self).current_buffer == old(self).current_buffer,
    {
        self.state = GapState::Ready;
    }

    /// An `error` message: it is recorded in the history.
    pub fn on_error(&mut self, message: &str)
        ensures
            final(self).output_history@ == old(self).output_history@ + "ERROR: "@ + message@
                + "\n"@,
            final(self).queue == old(self).queue,
            final(self).completed_jobs == old(self).completed_jobs,
            final(self).current_job == old(self).current_job,
            final(self).state == old(self).state,
            final(self).pending_commands == old(self).pending_commands,
            final(self).current_buffer == old(self).current_buffer,
    {
        self.output_history.append("ERROR: ");
        self.output_history.append(message);
        self.output_history.append("\n");
    }

    /// An `output` message. Output that holds the start marker of the first
    /// queued job starts it (what precedes the marker is dropped); output of
    /// the running job is buffered until its end marker, when the job's
    /// result is recorded. All kept output goes to the history.
    pub fn on_output(&mut self, output: &str)
        ensures
            ({
                let s = output@;
                let cur = old(self).current_job;
                let q = old(self).queue@;
                let kept = kept_output(cur, q, s);
                let job = output_job(cur, q, s);
                &&& final(self).output_history@ == old(self).output_history@ + kept
                &&& final(self).queue@ == if starts_job(cur, q, s) {
                    q.drop_first()
                } else {
                    q
                }
                &&& match job {
                    None => {
                        &&& final(self).current_job is None
                        &&& final(self).current_buffer@ == old(self).current_buffer@
                        &&& final(self).completed_jobs@ == old(self).completed_jobs@
                    },
                    Some(j) => if has_match(kept, end_marker(j as nat)) {
                        let text = old(self).current_buffer@ + kept.take(
                            first_index(kept, end_marker(j as nat)),
                        );
                        &&& final(self).current_job is None
                        &&& final(self).current_buffer@.len() == 0
                        &&& final(self).completed_jobs@.len() == old(self).completed_jobs@.len()
                            + 1
                        &&& final(self).completed_jobs@.drop_last() == old(self).completed_jobs@
                        &&& final(self).completed_jobs@.last().0 == j
                        &&& final(self).completed_jobs@.last().1.size@ == result_size(text)
                        &&& final(self).completed_jobs@.last().1.structure@ == result_structure(
                            text,
                        )
                    } else {
                        &&& final(self).current_job == Some(j)
                        &&& final(self).current_buffer@ == old(self).current_buffer@ + kept
                        &&& final(self).completed_jobs@ == old(self).completed_jobs@
                    },
                }
            }),
            final(self).state == old(self).state,
            final(self).pending_commands == old(self).pending_commands,
    {
        let cs = chars_of(output);
        let n = cs.len();
        assert(cs@.subrange(0, n as int) =~= cs@);
        let mut lo: usize = 0;
        // 1. Check if we are starting a job
        if self.current_job.is_none() && self.queue.len() > 0 {
            let first = self.queue[0];
            let start = marker("---START_", first);
            match find_pattern(cs.as_slice(), 0, n, start.as_slice()) {
                Some(idx) => {
                    proof {
                        let q = choose|p: int| is_first_match(output@, start_marker(first as nat), p);
                        crate::canonizer::lemma_first_match_unique(
                            output@,
                            start_marker(first as nat),
                            idx as int,
                            q,
                        );
                    }
                    self.current_job = Some(first);
                    self.queue.remove(0);
                    lo = idx + start.len();
                    if lo < n && cs[lo] == '\n' {
                        lo = lo + 1;
                    }
                    proof {
                        let rest = output@.skip(idx + start@.len());
                        assert(rest =~= cs@.subrange(idx + start@.len(), n as int));
                        if rest.len() > 0 && rest[0] == '\n' {
                            assert(rest.drop_first() =~= cs@.subrange(lo as int, n as int));
                        }
                    }
                },
                None => {},
            }
        }
        let ghost kept = cs@.subrange(lo as int, n as int);
        assert(kept == kept_output(old(self).current_job, old(self).queue@, output@));
        // 2. Buffer output for the current job
        match self.current_job {
            Some(job_id) => {
                let end = marker("---END_", job_id);
                match find_pattern(cs.as_slice(), lo, n, end.as_slice()) {
                    Some(idx) => {
                        proof {
                            let q = choose|p: int| is_first_match(kept, end_marker(job_id as nat), p);
                            crate::canonizer::lemma_first_match_unique(
                                kept,
                                end_marker(job_id as nat),
                                idx as int,
                                q,
                            );
                            assert(kept.take(idx as int) =~= cs@.subrange(lo as int, lo + idx));
                        }
                        push_chars(&mut self.current_buffer, cs.as_slice(), lo, lo + idx);
                        let result = read_group_result(&self.current_buffer);
                        self.current_buffer = String::new();
                        self.completed_jobs.push((job_id, result));
                        self.current_job = None;
                    },
                    None => {
                        push_chars(&mut self.current_buffer, cs.as_slice(), lo, n);
                    },
                }
            },
            None => {},
        }
        push_chars(&mut self.output_history, cs.as_slice(), lo, n);
    }

    /// When GAP waits on its input, sends the next queued command wrapped in
    /// its job markers: the result is the text to write to GAP's input.
    pub fn try_send_next_job(&mut self, stdin_waiting: bool) -> (r: Option<String>)
        ensures
            is_ready(old(self).state) && old(self).pending_commands@.len() > 0 && stdin_waiting
                ==> ({
                let (id, cmd) = old(self).pending_commands@[0];
                &&& r matches Some(t) && t@ == input_line(wrapped_command(id as nat, cmd@))
                &&& final(self).pending_commands@ == old(self).pending_commands@.drop_first()
                &&& final(self).queue@ == old(self).queue@.push(id)
                &&& final(self).output_history@ == old(self).output_history@ + "gap> "@
                    + wrapped_command(id as nat, cmd@) + "\n"@
            }),
            !(is_ready(old(self).state) && old(self).pending_commands@.len() > 0 && stdin_waiting)
                ==> r is None && final(self).pending_commands@ == old(self).pending_commands@
                && final(self).queue@ == old(self).queue@ && final(self).output_history@ == old(self).output_history@,
            final(self).completed_jobs == old(self).completed_jobs,
            final(self).current_job == old(self).current_job,
            final(self).state == old(self).state,
            final(self).current_buffer == old(self).current_buffer,
            is_ready(final(self).state) == is_ready(old(self).state),
    {
        let ready = match self.state {
            GapState::Ready => true,
            _ => false,
        };
        if !ready || self.pending_commands.len() == 0 || !stdin_waiting {
            return None;
        }
        let (job_id, cmd) = self.pending_commands.pop_front().unwrap();
        self.queue.push(job_id);
        let mut wrapped = String::from_str("Print(\"---START_");
        push_decimal(&mut wrapped, job_id);
        wrapped.append("---\\n\");\n");
        wrapped.append(cmd.as_str());
        wrapped.append("\nPrint(\"---END_");
        push_decimal(&mut wrapped, job_id);
        wrapped.append("---\\n\");\n");
        assert(wrapped@ =~= wrapped_command(job_id as nat, cmd@));
        self.send_command(wrapped.as_str(), true, true)
    }

    /// Sends a command: recorded in the history and returned as the text to
    /// write to GAP's input, or refused with a note in the history when GAP
    /// is not ready, its input buffer is missing, or it is not waiting.
    pub fn send_command(&mut self, cmd: &str, input_present: bool, stdin_waiting: bool) -> (r:
        Option<String>)
        ensures
            !is_ready(old(self).state) ==> r is None && final(self).output_history@ == old(self).output_history@ + "GAP not ready.\n"@,
            is_ready(old(self).state) && !input_present ==> r is None && final(self).output_history@ == old(self).output_history@
                + "Internal error: SAB not initialized.\n"@,
            is_ready(old(self).state) && input_present && !stdin_waiting ==> r is None && final(self).output_history@ == old(self).output_history@
                + "GAP is not waiting for input right now.\n"@,
            is_ready(old(self).state) && input_present && stdin_waiting ==> (r matches Some(t)
                && t@ == input_line(cmd@)) && final(self).output_history@ == old(self).output_history@ + "gap> "@ + cmd@ + "\n"@,
            final(self).queue == old(self).queue,
            final(self).pending_commands == old(self).pending_commands,
            final(self).completed_jobs == old(self).completed_jobs,
            final(self).current_job == old(self).current_job,
            final(self).state == old(self).state,
            final(self).current_buffer == old(self).current_buffer,
            is_ready(final(self).state) == is_ready(old(self).state),
    {
        let ready = match self.state {
            GapState::Ready => true,
            _ => false,
        };
        if !ready {
            self.output_history.append("GAP not ready.\n");
            return None;
        }
        if !input_present {
            self.output_history.append("Internal error: SAB not initialized.\n");
            return None;
        }
        if !stdin_waiting {
            self.output_history.append("GAP is not waiting for input right now.\n");
            return None;
        }
        self.output_history.append("gap> ");
        self.output_history.append(cmd);
        self.output_history.append("\n");
        let cs = chars_of(cmd);
        let mut final_cmd = String::from_str(cmd);
        if cs.len() == 0 || cs[cs.len() - 1] != '\n' {
            push_char(&mut final_cmd, '\n');
        }
        Some(final_cmd)
    }

    /// Queues a command, and sends the next one if GAP waits on its input.
    pub fn send_queued_command(&mut self, job_id: usize, cmd: &str, stdin_waiting: bool) -> (r:
        Option<String>)
        ensures
            ({
                let pend = pending_view(old(self).pending_commands@);
                let queued = pend.push((job_id, cmd@));
                let (id, c) = queued[0];
                if is_ready(old(self).state) && stdin_waiting {
                    &&& r matches Some(t) && t@ == input_line(wrapped_command(id as nat, c))
                    &&& pending_view(final(self).pending_commands@) == queued.drop_first()
                    &&& final(self).queue@ == old(self).queue@.push(id)
                    &&& final(self).output_history@ == old(self).output_history@ + "gap> "@
                        + wrapped_command(id as nat, c) + "\n"@
                } else {
                    &&& r is None
                    &&& pending_view(final(self).pending_commands@) == queued
                    &&& final(self).queue@ == old(self).queue@
                    &&& final(self).output_history@ == old(self).output_history@
                }
            }),
            final(self).completed_jobs == old(self).completed_jobs,
            final(self).current_job == old(self).current_job,
            final(self).state == old(self).state,
            final(self).current_buffer == old(self).current_buffer,
    {
        let ghost before = self.pending_commands@;
        let entry = (job_id, String::from_str(cmd));
        self.pending_commands.push_back(entry);
        proof {
            assert(pending_view(self.pending_commands@) =~= pending_view(before).push((job_id, cmd@)));
        }
        let ghost mid = self.pending_commands@;
        let r = self.try_send_next_job(stdin_waiting);
        proof {
            if is_ready(old(self).state) && stdin_waiting {
                assert(pending_view(self.pending_commands@) =~= pending_view(mid).drop_first());
            }
        }
        r
    }

    /// Forgets every queued, running and finished job.
    pub fn clear_queue(&mut self)
        ensures
            final(self).queue@.len() == 0,
            final(self).pending_commands@.len() == 0,
            final(self).completed_jobs@.len() == 0,
            final(self).current_job is None,
            final(self).current_buffer@.len() == 0,
            final(self).output_history == old(self).output_history,
    {
        self.queue.clear();
        self.pending_commands.clear();
        self.completed_jobs.clear();
        self.current_job = None;
        self.current_buffer = String::new();
    }

    /// The GAP command that prints the size and structure of the group that
    /// the generators generate (elements written 1-indexed).
    pub fn construct_group_cmd(generators: &[Vec<Vec<usize>>]) -> (r: String)
        requires
            elements_below_max(generators.deep_view()),
        ensures
            r@ == group_cmd(generators.deep_view()),
    {
        let mut s = String::from_str("g := Group([");
        let mut i: usize = 0;
        let ghost g = generators.deep_view();
        let ghost head = s@;
        assert(g.take(0) =~= Seq::<Seq<Seq<usize>>>::empty());
        while i < generators.len()
            invariant
                i <= generators@.len(),
                g == generators.deep_view(),
                elements_below_max(g),
                s@ == head + gap_operations(g.take(i as int)),
            decreases generators.len() - i,
        {
            if i > 0 {
                push_char(&mut s, ',');
            }
            let op = &generators[i];
            assert(g[i as int] == op.deep_view());
            assert forall|j: int, k: int|
                0 <= j < op@.len() && 0 <= k < op@[j]@.len() implies #[trigger] op@[j]@[k]
                < usize::MAX by {
                assert(g[i as int][j][k] == op@[j]@[k]);
            }
            push_gap_operation(&mut s, op);
            proof {
                assert(g.take(i + 1).drop_last() =~= g.take(i as int));
            }
            i = i + 1;
            assert(s@ =~= head + gap_operations(g.take(i as int)));
        }
        assert(g.take(generators@.len() as int) =~= g);
        s.append("]);; Print(Size(g), \"\\n\", StructureDescription(g));");
        s
    }
}

/// No element is `usize::MAX`, so adding one for GAP's numbering fits.
pub open spec fn elements_below_max(g: Seq<Seq<Seq<usize>>>) -> bool {
    forall|i: int, j: int, k: int|
        0 <= i < g.len() && 0 <= j < g[i].len() && 0 <= k < g[i][j].len() ==> #[trigger] g[i][j][k]
            < usize::MAX
}

/// `a+1,b+1,c+1`.
pub open spec fn gap_numbers(c: Seq<usize>) -> Seq<char>
    decreases c.len(),
{
    if c.len() == 0 {
        Seq::empty()
    } else if c.len() == 1 {
        dec((c[0] + 1) as nat)
    } else {
        gap_numbers(c.drop_last()) + seq![','] + dec((c.last() + 1) as nat)
    }
}

/// `(..)(..)`: the cycles of an operation, each in parentheses.
pub open spec fn gap_cycles(op: Seq<Seq<usize>>) -> Seq<char>
    decreases op.len(),
{
    if op.len() == 0 {
        Seq::empty()
    } else {
        gap_cycles(op.drop_last()) + seq!['('] + gap_numbers(op.last()) + seq![')']
    }
}

/// An operation in GAP notation; the identity is `()`.
pub open spec fn gap_operation(op: Seq<Seq<usize>>) -> Seq<char> {
    if op.len() == 0 {
        seq!['(', ')']
    } else {
        gap_cycles(op)
    }
}

/// The operations separated by commas.
pub open spec fn gap_operations(g: Seq<Seq<Seq<usize>>>) -> Seq<char>
    decreases g.len(),
{
    if g.len() == 0 {
        Seq::empty()
    } else if g.len() == 1 {
        gap_operation(g[0])
    } else {
        gap_operations(g.drop_last()) + seq![','] + gap_operation(g.last())
    }
}

pub open spec fn group_cmd(g: Seq<Seq<Seq<usize>>>) -> Seq<char> {
    "g := Group(["@ + gap_operations(g) + "]);; Print(Size(g), \"\\n\", StructureDescription(g));"@
}

fn push_gap_operation(s: &mut String, op: &Vec<Vec<usize>>)
    requires
        forall|j: int, k: int|
            0 <= j < op@.len() && 0 <= k < op@[j]@.len() ==> #[trigger] op@[j]@[k] < usize::MAX,
    ensures
        final(s)@ == old(s)@ + gap_operation(op.deep_view()),
{
    if op.len() == 0 {
        push_char(s, '(');
        push_char(s, ')');
        assert(final(s)@ =~= old(s)@ + gap_operation(op.deep_view()));
        return;
    }
    let ghost o = op.deep_view();
    let mut j: usize = 0;
    assert(old(s)@ + gap_cycles(o.take(0)) =~= old(s)@);
    while j < op.len()
        invariant
            j <= op@.len(),
            o == op.deep_view(),
            forall|a: int, k: int|
                0 <= a < op@.len() && 0 <= k < op@[a]@.len() ==> #[trigger] op@[a]@[k] < usize::MAX,
            s@ == old(s)@ + gap_cycles(o.take(j as int)),
        decreases op.len() - j,
    {
        let c = &op[j];
        push_char(s, '(');
        let mut k: usize = 0;
        let ghost before = s@;
        assert(before + gap_numbers(c@.take(0)) =~= before);
        while k < c.len()
            invariant
                k <= c@.len(),
                j < op@.len(),
                c == &op@[j as int],
                forall|a: int, m: int|
                    0 <= a < op@.len() && 0 <= m < op@[a]@.len() ==> #[trigger] op@[a]@[m]
                        < usize::MAX,
                s@ == before + gap_numbers(c@.take(k as int)),
            decreases c.len() - k,
        {
            if k > 0 {
                push_char(s, ',');
            }
            assert(op@[j as int]@[k as int] < usize::MAX);
            push_decimal(s, c[k] + 1);
            proof {
                assert(c@.take(k + 1).drop_last() =~= c@.take(k as int));
                if k == 0 {
                    assert(c@.take(1)[0] == c@[0]);
                }
            }
            k = k + 1;
            assert(s@ =~= before + gap_numbers(c@.take(k as int)));
        }
        push_char(s, ')');
        proof {
            assert(c@.take(c@.len() as int) =~= c@);
            assert(o[j as int] == c@);
            assert(o.take(j + 1).drop_last() =~= o.take(j as int));
        }
        j = j + 1;
        assert(s@ =~= old(s)@ + gap_cycles(o.take(j as int)));
    }
    assert(o.take(op@.len() as int) =~= o);
}

} // verus!
