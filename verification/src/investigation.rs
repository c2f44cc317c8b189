//! Crash signatures, likely causes, evidence search and source-location
//! helpers derived from a report.

use crate::report::{address_text, first_crashed, DumpReport, FrameRow};
use crate::state::join_path;
use crate::text::{
    chars_of, contains, contains_exec, dec, dec_right, lower, lower_chars, lower_of, push_chars,
    push_dec, push_dec_right, push_str, split_on, starts_with, string_from, string_of, trim,
    trim_of, views,
};
use vstd::prelude::*;

verus! {

broadcast use vstd::string::group_string_axioms;

#[derive(Clone, Debug, Eq, PartialEq)]
pub struct SearchHit {
    pub kind: &'static str,
    pub value: String,
}

// ---------------------------------------------------------------------------
// Likely cause
// ---------------------------------------------------------------------------

/// The likely cause suggested by the crash reason (ASCII case ignored) and
/// by whether the fault address is below 4096.
pub open spec fn cause_of(report: DumpReport) -> Seq<char> {
    let reason = lower(report.crash_reason@);
    let near_null = report.crash_address@ is Some && report.crash_address@->0 < 4096;
    if near_null && (contains(reason, "access"@) || contains(reason, "segv"@)) {
        "probable null-pointer access"@
    } else if contains(reason, "stack_overflow"@) || contains(reason, "stack overflow"@) {
        "probable recursion or stack exhaustion"@
    } else if contains(reason, "illegal_instruction"@) || contains(reason, "illegal instruction"@) {
        "invalid instruction or CPU incompatibility"@
    } else if contains(reason, "divide"@) {
        "arithmetic fault"@
    } else if contains(reason, "access"@) || contains(reason, "segv"@) {
        "invalid memory access"@
    } else {
        "cause requires frame-level investigation"@
    }
}

fn has(hay: &Vec<char>, needle: &str) -> (b: bool)
    ensures
        b == contains(hay@, needle@),
{
    let n = chars_of(needle);
    contains_exec(hay, &n)
}

/// A short hypothesis for the crash, from its reason and fault address.
pub fn likely_cause(report: &DumpReport) -> (cause: &'static str)
    ensures
        cause@ == cause_of(*report),
{
    let reason = lower_of(report.crash_reason.as_str());
    let near_null = match report.crash_address.value() {
        Some(value) => value < 4096,
        None => false,
    };
    let access = has(&reason, "access") || has(&reason, "segv");
    if near_null && access {
        "probable null-pointer access"
    } else if has(&reason, "stack_overflow") || has(&reason, "stack overflow") {
        "probable recursion or stack exhaustion"
    } else if has(&reason, "illegal_instruction") || has(&reason, "illegal instruction") {
        "invalid instruction or CPU incompatibility"
    } else if has(&reason, "divide") {
        "arithmetic fault"
    } else if access {
        "invalid memory access"
    } else {
        "cause requires frame-level investigation"
    }
}

// ---------------------------------------------------------------------------
// Crash signature
// ---------------------------------------------------------------------------

/// One frame in a signature: `module!function`, or `module+address` when the
/// function is unknown.
pub open spec fn frame_signature(f: FrameRow) -> Seq<char> {
    if f.function@.len() == 0 {
        f.module@ + "+"@ + address_text(f.instruction@)
    } else {
        f.module@ + "!"@ + f.function@
    }
}

/// The signatures of `frames`, joined by ` → `.
pub open spec fn joined_signatures(frames: Seq<FrameRow>) -> Seq<char>
    decreases frames.len(),
{
    if frames.len() == 0 {
        Seq::empty()
    } else if frames.len() == 1 {
        frame_signature(frames[0])
    } else {
        joined_signatures(frames.drop_last()) + " \u{2192} "@ + frame_signature(frames.last())
    }
}

/// The top (at most three) frames of the first crashed thread.
pub open spec fn signature_frames(report: DumpReport) -> Seq<FrameRow> {
    match first_crashed(report.threads@) {
        Some(i) => {
            let frames = report.threads@[i].frames@;
            if frames.len() <= 3 {
                frames
            } else {
                frames.take(3)
            }
        },
        None => Seq::empty(),
    }
}

/// `reason · frame → frame → frame`.
pub open spec fn signature_of(report: DumpReport) -> Seq<char> {
    report.crash_reason@ + " \u{b7} "@ + joined_signatures(signature_frames(report))
}

fn push_frame_signature(out: &mut String, f: &FrameRow)
    ensures
        final(out)@ == old(out)@ + frame_signature(*f),
{
    push_str(out, f.module.as_str());
    if f.function.as_str().is_empty() {
        push_str(out, "+");
        let a = f.instruction.display();
        push_str(out, a.as_str());
    } else {
        push_str(out, "!");
        push_str(out, f.function.as_str());
    }
    assert(out@ =~= old(out)@ + frame_signature(*f));
}

/// A signature that identifies the crash: its reason and the top three frames
/// of the crashed thread.
pub fn crash_signature(report: &DumpReport) -> (s: String)
    ensures
        s@ == signature_of(*report),
{
    let mut s = string_from(report.crash_reason.as_str());
    push_str(&mut s, " \u{b7} ");
    let ghost base = s@;
    if let Some(t) = crate::report::crashed_thread_index(report) {
        let frames = &report.threads[t].frames;
        let count = if frames.len() <= 3 {
            frames.len()
        } else {
            3
        };
        let ghost chosen = signature_frames(*report);
        assert(chosen =~= frames@.take(count as int));
        let mut i: usize = 0;
        while i < count
            invariant
                count <= frames@.len(),
                i <= count,
                s@ == base + joined_signatures(frames@.take(i as int)),
            decreases count - i,
        {
            if i > 0 {
                push_str(&mut s, " \u{2192} ");
            }
            push_frame_signature(&mut s, &frames[i]);
            i = i + 1;
            proof {
                let t = frames@.take(i as int);
                assert(t.drop_last() =~= frames@.take(i - 1));
                if i == 1 {
                    assert(frames@.take(0) =~= Seq::<FrameRow>::empty());
                    assert(joined_signatures(t) == frame_signature(t[0]));
                }
                assert(s@ =~= base + joined_signatures(t));
            }
        }
    } else {
        assert(joined_signatures(signature_frames(*report)) =~= Seq::<char>::empty());
    }
    assert(s@ =~= signature_of(*report));
    s
}

// ---------------------------------------------------------------------------
// Source paths
// ---------------------------------------------------------------------------

/// `str::trim_start_matches(prefix)`: every leading copy of `prefix` removed.
pub open spec fn strip_all(s: Seq<char>, prefix: Seq<char>) -> Seq<char>
    decreases s.len(),
{
    if prefix.len() > 0 && starts_with(s, prefix) {
        strip_all(s.skip(prefix.len() as int), prefix)
    } else {
        s
    }
}

/// `str::trim_start_matches('/')`.
pub open spec fn strip_slashes(s: Seq<char>) -> Seq<char>
    decreases s.len(),
{
    if s.len() > 0 && s[0] == '/' {
        strip_slashes(s.drop_first())
    } else {
        s
    }
}

/// A source path moved from the build root `from` to the local root `to`,
/// when both roots are given and the path starts with `from`.
pub open spec fn remapped(path: Seq<char>, from: Seq<char>, to: Seq<char>) -> Seq<char> {
    if from.len() > 0 && to.len() > 0 && starts_with(path, from) {
        join_path(to, strip_slashes(strip_all(path, from)))
    } else {
        path
    }
}

/// Rewrites a build-machine source path to a local checkout.
pub fn remap_source_path(path: &str, from: &str, to: &str) -> (r: String)
    ensures
        r@ == remapped(path@, from@, to@),
{
    let p = chars_of(path);
    let f = chars_of(from);
    if f.len() == 0 || to.is_empty() || !crate::text::starts_with_exec(&p, &f) {
        return string_from(path);
    }
    let m = f.len();
    let n = p.len();
    let mut i: usize = 0;
    assert(p@.skip(0) =~= p@);
    while n - i >= m && crate::text::occurs_at_exec(&p, &f, i)
        invariant
            n == p@.len(),
            m == f@.len(),
            m > 0,
            f@ == from@,
            i <= n,
            strip_all(path@, from@) == strip_all(p@.skip(i as int), from@),
        decreases n - i,
    {
        proof {
            assert(p@.subrange(i as int, i + m) =~= p@.skip(i as int).take(m as int));
            assert(p@.skip(i as int).skip(m as int) =~= p@.skip(i + m));
            assert(f@ == from@);
            assert(starts_with(p@.skip(i as int), from@));
            assert(strip_all(p@.skip(i as int), from@) == strip_all(p@.skip(i as int).skip(m as int), from@));
        }
        i = i + m;
    }
    proof {
        let rest = p@.skip(i as int);
        if n - i >= m {
            assert(p@.subrange(i as int, i + m) =~= rest.take(m as int));
        }
        assert(strip_all(rest, from@) == rest);
    }
    while i < n && p[i] == '/'
        invariant
            n == p@.len(),
            i <= n,
            strip_slashes(strip_all(path@, from@)) == strip_slashes(p@.skip(i as int)),
        decreases n - i,
    {
        assert(p@.skip(i as int).drop_first() =~= p@.skip(i + 1));
        i = i + 1;
    }
    let mut rest: Vec<char> = Vec::new();
    let mut k = i;
    while k < n
        invariant
            n == p@.len(),
            i <= k <= n,
            rest@ == p@.subrange(i as int, k as int),
        decreases n - k,
    {
        rest.push(p[k]);
        k = k + 1;
        assert(rest@ =~= p@.subrange(i as int, k as int));
    }
    assert(rest@ =~= p@.skip(i as int));
    assert(strip_slashes(p@.skip(i as int)) == p@.skip(i as int));
    let rest_string = string_of(&rest);
    crate::state::join(to, rest_string.as_str())
}

// ---------------------------------------------------------------------------
// Source excerpts
// ---------------------------------------------------------------------------

/// `s` without one trailing `\r`.
pub open spec fn strip_cr(s: Seq<char>) -> Seq<char> {
    if s.len() > 0 && s.last() == '\r' {
        s.drop_last()
    } else {
        s
    }
}

/// `str::lines`: the pieces between `\n`, each without a `\r` before its
/// `\n`; a final `\n` does not start another line.
pub open spec fn lines_of(s: Seq<char>) -> Seq<Seq<char>> {
    let parts = split_on(s, '\n');
    if s.len() == 0 {
        Seq::empty()
    } else if s.last() == '\n' {
        parts.drop_last().map_values(|p: Seq<char>| strip_cr(p))
    } else {
        parts.drop_last().map_values(|p: Seq<char>| strip_cr(p)).push(parts.last())
    }
}

/// One excerpt line: a `>` marker on the target line, the right-aligned
/// line number and the text.
pub open spec fn excerpt_line(number: nat, target: nat, text: Seq<char>) -> Seq<char> {
    (if number == target {
        ">"@
    } else {
        " "@
    }) + " "@ + dec_right(number, 5) + "  "@ + text
}

/// The excerpt lines among the first `k` lines, for lines `first..=last`.
pub open spec fn excerpt_lines(lines: Seq<Seq<char>>, k: nat, first: nat, last: nat, target: nat) -> Seq<
    Seq<char>,
>
    decreases k,
{
    if k == 0 {
        Seq::empty()
    } else {
        excerpt_lines(lines, (k - 1) as nat, first, last, target) + (if first <= k <= last {
            seq![excerpt_line(k, target, lines[k - 1])]
        } else {
            Seq::empty()
        })
    }
}

/// `parts` joined with `\n`.
pub open spec fn join_lines(parts: Seq<Seq<char>>) -> Seq<char>
    decreases parts.len(),
{
    if parts.len() == 0 {
        Seq::empty()
    } else if parts.len() == 1 {
        parts[0]
    } else {
        join_lines(parts.drop_last()) + "\n"@ + parts.last()
    }
}

/// The lines within `radius` of `target_line` (numbered from 1), the target
/// marked with `>`.
pub open spec fn excerpt_of(source: Seq<char>, target: nat, radius: nat) -> Seq<char> {
    let first = if target > radius && target - radius >= 1 {
        (target - radius) as nat
    } else {
        1
    };
    let last = if target + radius > usize::MAX {
        usize::MAX as nat
    } else {
        target + radius
    };
    join_lines(excerpt_lines(lines_of(source), lines_of(source).len(), first, last, target))
}

fn lines_vec(source: &str) -> (lines: Vec<Vec<char>>)
    ensures
        lines@.len() == lines_of(source@).len(),
        forall|k: int| 0 <= k < lines@.len() ==> (#[trigger] lines@[k])@ == lines_of(source@)[k],
{
    let s = chars_of(source);
    let parts = crate::text::split_chars(&s, '\n');
    let ghost sp = split_on(source@, '\n');
    proof {
        crate::text::lemma_split_on_nonempty(source@, '\n');
    }
    let n = parts.len();
    let mut lines: Vec<Vec<char>> = Vec::new();
    if s.len() == 0 {
        return lines;
    }
    let mut i: usize = 0;
    while i + 1 < n
        invariant
            n == parts@.len(),
            n == sp.len(),
            n >= 1,
            forall|k: int| 0 <= k < n ==> (#[trigger] parts@[k])@ == sp[k],
            i + 1 <= n,
            lines@.len() == i,
            forall|k: int| 0 <= k < i ==> (#[trigger] lines@[k])@ == strip_cr(sp[k]),
        decreases n - i,
    {
        let part = &parts[i];
        let mut line: Vec<char> = Vec::new();
        let len = part.len();
        let keep = if len > 0 && part[len - 1] == '\r' {
            len - 1
        } else {
            len
        };
        let mut k: usize = 0;
        while k < keep
            invariant
                keep <= len,
                len == part@.len(),
                k <= keep,
                line@ == part@.take(k as int),
            decreases keep - k,
        {
            line.push(part[k]);
            k = k + 1;
            assert(line@ =~= part@.take(k as int));
        }
        assert(line@ =~= strip_cr(part@));
        lines.push(line);
        i = i + 1;
    }
    if s[s.len() - 1] != '\n' {
        let last = clone_chars(&parts[n - 1]);
        lines.push(last);
    }
    proof {
        let expected = lines_of(source@);
        assert forall|k: int| 0 <= k < lines@.len() implies (#[trigger] lines@[k])@ == expected[k] by {
            if k < n - 1 {
                assert(sp.drop_last()[k] == sp[k]);
            }
        }
    }
    lines
}

fn clone_chars(v: &Vec<char>) -> (r: Vec<char>)
    ensures
        r@ == v@,
{
    let n = v.len();
    let mut r: Vec<char> = Vec::new();
    let mut i: usize = 0;
    while i < n
        invariant
            n == v@.len(),
            i <= n,
            r@ == v@.take(i as int),
        decreases n - i,
    {
        r.push(v[i]);
        i = i + 1;
        assert(r@ =~= v@.take(i as int));
    }
    assert(v@.take(n as int) =~= v@);
    r
}

proof fn lemma_join_push(prev: Seq<Seq<char>>, line: Seq<char>)
    ensures
        join_lines(prev.push(line)) == (if prev.len() == 0 {
            line
        } else {
            join_lines(prev) + "\n"@ + line
        }),
{
    assert(prev.push(line).drop_last() =~= prev);
}

proof fn lemma_excerpt_step(all: Seq<Seq<char>>, k: nat, first: nat, last: nat, target: nat)
    ensures
        excerpt_lines(all, k + 1, first, last, target) == excerpt_lines(all, k, first, last, target)
            + (if first <= k + 1 <= last {
            seq![excerpt_line(k + 1, target, all[k as int])]
        } else {
            Seq::empty()
        }),
        excerpt_lines(all, k, first, last, target).len() <= k,
    decreases k,
{
    if k > 0 {
        lemma_excerpt_step(all, (k - 1) as nat, first, last, target);
    }
}

/// The lines of `source` within `radius` of `target_line`, numbered and
/// with the target line marked.
pub fn excerpt(source: &str, target_line: usize, radius: usize) -> (text: String)
    ensures
        text@ == excerpt_of(source@, target_line as nat, radius as nat),
{
    let lines = lines_vec(source);
    let first: usize = if target_line > radius && target_line - radius >= 1 {
        target_line - radius
    } else {
        1
    };
    let last: usize = if target_line > usize::MAX - radius {
        usize::MAX
    } else {
        target_line + radius
    };
    let ghost all = lines_of(source@);
    let n = lines.len();
    let mut text = String::new();
    let mut count: usize = 0;
    let mut k: usize = 0;
    while k < n
        invariant
            n == lines@.len(),
            n == all.len(),
            forall|t: int| 0 <= t < n ==> (#[trigger] lines@[t])@ == all[t],
            k <= n,
            text@ == join_lines(excerpt_lines(all, k as nat, first as nat, last as nat, target_line as nat)),
            count == excerpt_lines(all, k as nat, first as nat, last as nat, target_line as nat).len(),
            count <= k,
        decreases n - k,
    {
        let number = k + 1;
        proof {
            lemma_excerpt_step(all, k as nat, first as nat, last as nat, target_line as nat);
        }
        let ghost prev = excerpt_lines(all, k as nat, first as nat, last as nat, target_line as nat);
        if first <= number && number <= last {
            let ghost line = excerpt_line(number as nat, target_line as nat, all[k as int]);
            proof {
                lemma_join_push(prev, line);
                assert(prev + seq![line] =~= prev.push(line));
            }
            if count > 0 {
                push_str(&mut text, "\n");
            }
            push_str(&mut text, if number == target_line {
                ">"
            } else {
                " "
            });
            push_str(&mut text, " ");
            push_dec_right(&mut text, number as u64, 5);
            push_str(&mut text, "  ");
            push_chars(&mut text, &lines[k]);
            count = count + 1;
            assert(text@ =~= join_lines(prev.push(line)));
        } else {
            assert(prev + Seq::<Seq<char>>::empty() =~= prev);
        }
        k = k + 1;
    }
    text
}

// ---------------------------------------------------------------------------
// Evidence search
// ---------------------------------------------------------------------------

pub struct HitView {
    pub kind: Seq<char>,
    pub value: Seq<char>,
}

impl View for SearchHit {
    type V = HitView;

    open spec fn view(&self) -> HitView {
        HitView { kind: self.kind@, value: self.value@ }
    }
}

pub open spec fn hit_views(v: Seq<SearchHit>) -> Seq<HitView> {
    v.map_values(|h: SearchHit| h@)
}

/// The lower-cased `value` contains the (lower-cased) needle.
pub open spec fn text_matches(value: Seq<char>, needle: Seq<char>) -> bool {
    contains(lower(value), needle)
}

pub open spec fn function_or_na(f: FrameRow) -> Seq<char> {
    if f.function@.len() == 0 {
        "Not available"@
    } else {
        f.function@
    }
}

pub open spec fn line_or_zero(f: FrameRow) -> nat {
    match f.source_line {
        Some(l) => l as nat,
        None => 0,
    }
}

pub open spec fn frame_matches(f: FrameRow, needle: Seq<char>) -> bool {
    text_matches(f.function@, needle) || text_matches(f.module@, needle) || text_matches(
        f.source_file@,
        needle,
    ) || text_matches(address_text(f.instruction@), needle) || text_matches(
        f.function_offset@,
        needle,
    )
}

pub open spec fn frame_hit(thread: crate::report::ThreadRow, f: FrameRow) -> HitView {
    HitView {
        kind: "Stack frame"@,
        value: "Thread "@ + dec(thread.id as nat) + " \u{b7} "@ + f.module@ + "!"@ + function_or_na(f)
            + " \u{b7} "@ + f.source_file@ + ":"@ + dec(line_or_zero(f)),
    }
}

pub open spec fn frame_hits(thread: crate::report::ThreadRow, frames: Seq<FrameRow>, needle: Seq<char>) -> Seq<
    HitView,
>
    decreases frames.len(),
{
    if frames.len() == 0 {
        Seq::empty()
    } else {
        frame_hits(thread, frames.drop_last(), needle) + (if frame_matches(frames.last(), needle) {
            seq![frame_hit(thread, frames.last())]
        } else {
            Seq::empty()
        })
    }
}

pub open spec fn thread_hits(threads: Seq<crate::report::ThreadRow>, needle: Seq<char>) -> Seq<HitView>
    decreases threads.len(),
{
    if threads.len() == 0 {
        Seq::empty()
    } else {
        let t = threads.last();
        thread_hits(threads.drop_last(), needle) + (if text_matches(t.name@, needle) || contains(
            dec(t.id as nat),
            needle,
        ) {
            seq![HitView { kind: "Thread"@, value: dec(t.id as nat) + " \u{b7} "@ + t.name@ }]
        } else {
            Seq::empty()
        }) + frame_hits(t, t.frames@, needle)
    }
}

pub open spec fn module_hits(modules: Seq<crate::report::ModuleRow>, needle: Seq<char>) -> Seq<HitView>
    decreases modules.len(),
{
    if modules.len() == 0 {
        Seq::empty()
    } else {
        let m = modules.last();
        module_hits(modules.drop_last(), needle) + (if text_matches(m.name@, needle) || text_matches(
            address_text(m.base@),
            needle,
        ) || text_matches(m.code_id@, needle) {
            seq![HitView { kind: "Module"@, value: m.name@ + " \u{b7} "@ + address_text(m.base@) }]
        } else {
            Seq::empty()
        })
    }
}

pub open spec fn memory_hits(memory: Seq<crate::report::MemoryRow>, needle: Seq<char>) -> Seq<HitView>
    decreases memory.len(),
{
    if memory.len() == 0 {
        Seq::empty()
    } else {
        let r = memory.last();
        memory_hits(memory.drop_last(), needle) + (if text_matches(address_text(r.start@), needle) {
            seq![
                HitView {
                    kind: "Memory"@,
                    value: address_text(r.start@) + " \u{b7} "@ + dec(r.size as nat) + " bytes"@,
                },
            ]
        } else {
            Seq::empty()
        })
    }
}

pub open spec fn stream_hits(streams: Seq<crate::report::StreamRow>, needle: Seq<char>) -> Seq<HitView>
    decreases streams.len(),
{
    if streams.len() == 0 {
        Seq::empty()
    } else {
        let st = streams.last();
        stream_hits(streams.drop_last(), needle) + (if text_matches(st.kind@, needle) {
            seq![HitView { kind: "Stream"@, value: st.kind@ }]
        } else {
            Seq::empty()
        })
    }
}

/// Every thread, stack frame, module, memory region and stream whose text
/// contains the trimmed query, ignoring ASCII case; nothing for a blank query.
pub open spec fn search_hits(report: DumpReport, query: Seq<char>) -> Seq<HitView> {
    let needle = lower(trim(query));
    if needle.len() == 0 {
        Seq::empty()
    } else {
        thread_hits(report.threads@, needle) + module_hits(report.modules@, needle) + memory_hits(
            report.memory@,
            needle,
        ) + stream_hits(report.streams@, needle)
    }
}

fn text_matches_exec(value: &str, needle: &Vec<char>) -> (b: bool)
    ensures
        b == text_matches(value@, needle@),
{
    let v = lower_of(value);
    contains_exec(&v, needle)
}

fn search_frames(thread: &crate::report::ThreadRow, needle: &Vec<char>, hits: &mut Vec<SearchHit>)
    ensures
        hit_views(final(hits)@) == hit_views(old(hits)@) + frame_hits(*thread, thread.frames@, needle@),
{
    let ghost base = hit_views(hits@);
    let n = thread.frames.len();
    let mut i: usize = 0;
    while i < n
        invariant
            n == thread.frames@.len(),
            i <= n,
            hit_views(hits@) == base + frame_hits(*thread, thread.frames@.take(i as int), needle@),
        decreases n - i,
    {
        let frame = &thread.frames[i];
        let address = frame.instruction.display();
        let matched = text_matches_exec(frame.function.as_str(), needle) || text_matches_exec(
            frame.module.as_str(),
            needle,
        ) || text_matches_exec(frame.source_file.as_str(), needle) || text_matches_exec(
            address.as_str(),
            needle,
        ) || text_matches_exec(frame.function_offset.as_str(), needle);
        let ghost before = hit_views(hits@);
        proof {
            assert(thread.frames@.take(i + 1).drop_last() =~= thread.frames@.take(i as int));
        }
        if matched {
            let mut value = string_from("Thread ");
            push_dec(&mut value, thread.id as u64);
            push_str(&mut value, " \u{b7} ");
            push_str(&mut value, frame.module.as_str());
            push_str(&mut value, "!");
            if frame.function.as_str().is_empty() {
                push_str(&mut value, "Not available");
            } else {
                push_str(&mut value, frame.function.as_str());
            }
            push_str(&mut value, " \u{b7} ");
            push_str(&mut value, frame.source_file.as_str());
            push_str(&mut value, ":");
            push_dec(
                &mut value,
                match frame.source_line {
                    Some(l) => l,
                    None => 0,
                },
            );
            let hit = SearchHit { kind: "Stack frame", value };
            assert(hit@ == frame_hit(*thread, *frame)) by {
                assert(value@ =~= frame_hit(*thread, *frame).value);
            }
            hits.push(hit);
            assert(hit_views(hits@) =~= before.push(hit@));
        }
        i = i + 1;
        assert(hit_views(hits@) =~= base + frame_hits(*thread, thread.frames@.take(i as int), needle@));
    }
    assert(thread.frames@.take(n as int) =~= thread.frames@);
}

fn search_threads(report: &DumpReport, needle: &Vec<char>, hits: &mut Vec<SearchHit>)
    ensures
        hit_views(final(hits)@) == hit_views(old(hits)@) + thread_hits(report.threads@, needle@),
{
    let ghost base = hit_views(hits@);
    let n = report.threads.len();
    let mut i: usize = 0;
    while i < n
        invariant
            n == report.threads@.len(),
            i <= n,
            hit_views(hits@) == base + thread_hits(report.threads@.take(i as int), needle@),
        decreases n - i,
    {
        let thread = &report.threads[i];
        let id_text = chars_of(crate::text::dec_string(thread.id as u64).as_str());
        let matched = text_matches_exec(thread.name.as_str(), needle) || contains_exec(&id_text, needle);
        let ghost before = hit_views(hits@);
        proof {
            assert(report.threads@.take(i + 1).drop_last() =~= report.threads@.take(i as int));
        }
        if matched {
            let mut value = crate::text::dec_string(thread.id as u64);
            push_str(&mut value, " \u{b7} ");
            push_str(&mut value, thread.name.as_str());
            let hit = SearchHit { kind: "Thread", value };
            hits.push(hit);
            assert(hit_views(hits@) =~= before.push(hit@));
        }
        let ghost middle = hit_views(hits@);
        search_frames(thread, needle, hits);
        i = i + 1;
        assert(hit_views(hits@) =~= base + thread_hits(report.threads@.take(i as int), needle@));
    }
    assert(report.threads@.take(n as int) =~= report.threads@);
}

fn search_modules(report: &DumpReport, needle: &Vec<char>, hits: &mut Vec<SearchHit>)
    ensures
        hit_views(final(hits)@) == hit_views(old(hits)@) + module_hits(report.modules@, needle@),
{
    let ghost base = hit_views(hits@);
    let n = report.modules.len();
    let mut i: usize = 0;
    while i < n
        invariant
            n == report.modules@.len(),
            i <= n,
            hit_views(hits@) == base + module_hits(report.modules@.take(i as int), needle@),
        decreases n - i,
    {
        let module = &report.modules[i];
        let base_text = module.base.display();
        let matched = text_matches_exec(module.name.as_str(), needle) || text_matches_exec(
            base_text.as_str(),
            needle,
        ) || text_matches_exec(module.code_id.as_str(), needle);
        let ghost before = hit_views(hits@);
        proof {
            assert(report.modules@.take(i + 1).drop_last() =~= report.modules@.take(i as int));
        }
        if matched {
            let mut value = string_from(module.name.as_str());
            push_str(&mut value, " \u{b7} ");
            push_str(&mut value, base_text.as_str());
            let hit = SearchHit { kind: "Module", value };
            hits.push(hit);
            assert(hit_views(hits@) =~= before.push(hit@));
        }
        i = i + 1;
        assert(hit_views(hits@) =~= base + module_hits(report.modules@.take(i as int), needle@));
    }
    assert(report.modules@.take(n as int) =~= report.modules@);
}

fn search_memory(report: &DumpReport, needle: &Vec<char>, hits: &mut Vec<SearchHit>)
    ensures
        hit_views(final(hits)@) == hit_views(old(hits)@) + memory_hits(report.memory@, needle@),
{
    let ghost base = hit_views(hits@);
    let n = report.memory.len();
    let mut i: usize = 0;
    while i < n
        invariant
            n == report.memory@.len(),
            i <= n,
            hit_views(hits@) == base + memory_hits(report.memory@.take(i as int), needle@),
        decreases n - i,
    {
        let region = &report.memory[i];
        let start_text = region.start.display();
        let matched = text_matches_exec(start_text.as_str(), needle);
        let ghost before = hit_views(hits@);
        proof {
            assert(report.memory@.take(i + 1).drop_last() =~= report.memory@.take(i as int));
        }
        if matched {
            let mut value = string_from(start_text.as_str());
            push_str(&mut value, " \u{b7} ");
            push_dec(&mut value, region.size);
            push_str(&mut value, " bytes");
            let hit = SearchHit { kind: "Memory", value };
            hits.push(hit);
            assert(hit_views(hits@) =~= before.push(hit@));
        }
        i = i + 1;
        assert(hit_views(hits@) =~= base + memory_hits(report.memory@.take(i as int), needle@));
    }
    assert(report.memory@.take(n as int) =~= report.memory@);
}

fn search_streams(report: &DumpReport, needle: &Vec<char>, hits: &mut Vec<SearchHit>)
    ensures
        hit_views(final(hits)@) == hit_views(old(hits)@) + stream_hits(report.streams@, needle@),
{
    let ghost base = hit_views(hits@);
    let n = report.streams.len();
    let mut i: usize = 0;
    while i < n
        invariant
            n == report.streams@.len(),
            i <= n,
            hit_views(hits@) == base + stream_hits(report.streams@.take(i as int), needle@),
        decreases n - i,
    {
        let stream = &report.streams[i];
        let matched = text_matches_exec(stream.kind.as_str(), needle);
        let ghost before = hit_views(hits@);
        proof {
            assert(report.streams@.take(i + 1).drop_last() =~= report.streams@.take(i as int));
        }
        if matched {
            let hit = SearchHit { kind: "Stream", value: stream.kind.clone() };
            hits.push(hit);
            assert(hit_views(hits@) =~= before.push(hit@));
        }
        i = i + 1;
        assert(hit_views(hits@) =~= base + stream_hits(report.streams@.take(i as int), needle@));
    }
    assert(report.streams@.take(n as int) =~= report.streams@);
}

/// Finds the query in thread names and ids, stack frames, modules, memory
/// region addresses and stream kinds.
pub fn search(report: &DumpReport, query: &str) -> (hits: Vec<SearchHit>)
    ensures
        hit_views(hits@) == search_hits(*report, query@),
{
    let trimmed = trim_of(query);
    let needle = lower_chars(&trimmed);
    let mut hits: Vec<SearchHit> = Vec::new();
    if needle.len() == 0 {
        return hits;
    }
    assert(hit_views(hits@) =~= Seq::<HitView>::empty());
    search_threads(report, &needle, &mut hits);
    search_modules(report, &needle, &mut hits);
    search_memory(report, &needle, &mut hits);
    search_streams(report, &needle, &mut hits);
    assert(hit_views(hits@) =~= search_hits(*report, query@));
    hits
}

// ---------------------------------------------------------------------------
// What the search finds
// ---------------------------------------------------------------------------

/// A module's text that the search reads: its name, base address or code id
/// holds the needle, ignoring ASCII case.
pub open spec fn module_found(m: crate::report::ModuleRow, needle: Seq<char>) -> bool {
    contains(lower(m.name@), needle) || contains(lower(address_text(m.base@)), needle) || contains(
        lower(m.code_id@),
        needle,
    )
}

/// The hit shown for a module: its name and base address.
pub open spec fn module_hit(m: crate::report::ModuleRow) -> HitView {
    HitView { kind: "Module"@, value: m.name@ + " \u{b7} "@ + address_text(m.base@) }
}

proof fn lemma_module_hits_complete(modules: Seq<crate::report::ModuleRow>, needle: Seq<char>, i: int)
    requires
        0 <= i < modules.len(),
        module_found(modules[i], needle),
    ensures
        module_hits(modules, needle).contains(module_hit(modules[i])),
    decreases modules.len(),
{
    let rest = module_hits(modules.drop_last(), needle);
    if i < modules.len() - 1 {
        lemma_module_hits_complete(modules.drop_last(), needle, i);
        assert(modules.drop_last()[i] == modules[i]);
        let j = choose|j: int| 0 <= j < rest.len() && rest[j] == module_hit(modules[i]);
        assert(module_hits(modules, needle)[j] == rest[j]);
    } else {
        assert(module_hits(modules, needle)[rest.len() as int] == module_hit(modules[i]));
    }
}

proof fn lemma_module_hits_sound(modules: Seq<crate::report::ModuleRow>, needle: Seq<char>, j: int)
    requires
        0 <= j < module_hits(modules, needle).len(),
    ensures
        exists|i: int|
            0 <= i < modules.len() && module_found(#[trigger] modules[i], needle)
                && module_hits(modules, needle)[j] == module_hit(modules[i]),
    decreases modules.len(),
{
    let rest = module_hits(modules.drop_last(), needle);
    if j < rest.len() {
        lemma_module_hits_sound(modules.drop_last(), needle, j);
        let i = choose|i: int|
            0 <= i < modules.drop_last().len() && module_found(#[trigger] modules.drop_last()[i], needle)
                && rest[j] == module_hit(modules.drop_last()[i]);
        assert(modules[i] == modules.drop_last()[i]);
    } else {
        let i = modules.len() - 1;
        assert(module_found(modules[i], needle));
    }
}

/// The search finds a module exactly by its own text: for a query that is
/// not blank, every module whose name, base address or code id holds the
/// trimmed query, ignoring ASCII case, has a "Module" hit naming it with its
/// base address; and every "Module" hit is such a module's.
pub proof fn lemma_search_finds_modules(report: DumpReport, query: Seq<char>)
    requires
        lower(trim(query)).len() > 0,
    ensures
        forall|i: int|
            0 <= i < report.modules@.len() && module_found(
                #[trigger] report.modules@[i],
                lower(trim(query)),
            ) ==> search_hits(report, query).contains(module_hit(report.modules@[i])),
        forall|i: int|
            0 <= i < report.modules@.len() && contains(
                lower(#[trigger] report.modules@[i].name@),
                lower(trim(query)),
            ) ==> search_hits(report, query).contains(module_hit(report.modules@[i])),
        forall|h: HitView|
            #[trigger] search_hits(report, query).contains(h) && h.kind == "Module"@ ==> exists|i: int|
                0 <= i < report.modules@.len() && module_found(
                    #[trigger] report.modules@[i],
                    lower(trim(query)),
                ) && h == module_hit(report.modules@[i]),
{
    let needle = lower(trim(query));
    let t = thread_hits(report.threads@, needle);
    let m = module_hits(report.modules@, needle);
    let r = memory_hits(report.memory@, needle);
    let st = stream_hits(report.streams@, needle);
    let all = search_hits(report, query);
    assert(all == t + m + r + st);
    assert forall|i: int|
        0 <= i < report.modules@.len() && module_found(
            #[trigger] report.modules@[i],
            needle,
        ) implies all.contains(module_hit(report.modules@[i])) by {
        lemma_module_hits_complete(report.modules@, needle, i);
        let j = choose|j: int| 0 <= j < m.len() && m[j] == module_hit(report.modules@[i]);
        assert(all[t.len() + j] == m[j]);
    }
    assert forall|i: int|
        0 <= i < report.modules@.len() && contains(
            lower(#[trigger] report.modules@[i].name@),
            needle,
        ) implies all.contains(module_hit(report.modules@[i])) by {
        assert(module_found(report.modules@[i], needle));
    }
    assert forall|h: HitView|
        #[trigger] all.contains(h) && h.kind == "Module"@ implies exists|i: int|
            0 <= i < report.modules@.len() && module_found(#[trigger] report.modules@[i], needle)
                && h == module_hit(report.modules@[i]) by {
        let k = choose|k: int| 0 <= k < all.len() && all[k] == h;
        lemma_hits_kinds(report, needle);
        if t.len() <= k < t.len() + m.len() {
            lemma_module_hits_sound(report.modules@, needle, k - t.len());
            assert(all[k] == m[k - t.len()]);
        } else if k < t.len() {
            assert(all[k] == t[k]);
        } else if k < t.len() + m.len() + r.len() {
            assert(all[k] == r[k - t.len() - m.len()]);
        } else {
            assert(all[k] == st[k - t.len() - m.len() - r.len()]);
        }
    }
}

proof fn lemma_frame_hit_kinds(thread: crate::report::ThreadRow, frames: Seq<FrameRow>, needle: Seq<char>)
    ensures
        forall|j: int| 0 <= j < frame_hits(thread, frames, needle).len() ==> (#[trigger] frame_hits(
            thread,
            frames,
            needle,
        )[j]).kind == "Stack frame"@,
    decreases frames.len(),
{
    if frames.len() > 0 {
        lemma_frame_hit_kinds(thread, frames.drop_last(), needle);
        let a = frame_hits(thread, frames.drop_last(), needle);
        let all = frame_hits(thread, frames, needle);
        assert forall|j: int| 0 <= j < all.len() implies (#[trigger] all[j]).kind == "Stack frame"@ by {
            if j < a.len() {
                assert(all[j] == a[j]);
            }
        }
    }
}

proof fn lemma_module_differs()
    ensures
        "Thread"@ != "Module"@,
        "Stack frame"@ != "Module"@,
        "Memory"@ != "Module"@,
        "Stream"@ != "Module"@,
{
    reveal_strlit("Module");
    reveal_strlit("Thread");
    reveal_strlit("Stack frame");
    reveal_strlit("Memory");
    reveal_strlit("Stream");
    assert("Thread"@[0] != "Module"@[0]);
    assert("Stack frame"@.len() != "Module"@.len());
    assert("Memory"@[2] != "Module"@[2]);
    assert("Stream"@[0] != "Module"@[0]);
}

proof fn lemma_thread_hit_kinds(threads: Seq<crate::report::ThreadRow>, needle: Seq<char>)
    ensures
        forall|j: int| 0 <= j < thread_hits(threads, needle).len() ==> (#[trigger] thread_hits(
            threads,
            needle,
        )[j]).kind != "Module"@,
    decreases threads.len(),
{
    lemma_module_differs();
    if threads.len() > 0 {
        let t = threads.last();
        lemma_thread_hit_kinds(threads.drop_last(), needle);
        lemma_frame_hit_kinds(t, t.frames@, needle);
        let a = thread_hits(threads.drop_last(), needle);
        let mid = if text_matches(t.name@, needle) || contains(dec(t.id as nat), needle) {
            seq![HitView { kind: "Thread"@, value: dec(t.id as nat) + " \u{b7} "@ + t.name@ }]
        } else {
            Seq::<HitView>::empty()
        };
        let f = frame_hits(t, t.frames@, needle);
        let all = thread_hits(threads, needle);
        assert(all == a + mid + f);
        assert forall|j: int| 0 <= j < all.len() implies (#[trigger] all[j]).kind != "Module"@ by {
            if j < a.len() {
                assert(all[j] == a[j]);
            } else if j < a.len() + mid.len() {
                assert(all[j] == mid[j - a.len()]);
            } else {
                assert(all[j] == f[j - a.len() - mid.len()]);
            }
        }
    }
}

proof fn lemma_memory_hit_kinds(memory: Seq<crate::report::MemoryRow>, needle: Seq<char>)
    ensures
        forall|j: int| 0 <= j < memory_hits(memory, needle).len() ==> (#[trigger] memory_hits(
            memory,
            needle,
        )[j]).kind == "Memory"@,
    decreases memory.len(),
{
    if memory.len() > 0 {
        lemma_memory_hit_kinds(memory.drop_last(), needle);
        let a = memory_hits(memory.drop_last(), needle);
        let all = memory_hits(memory, needle);
        assert forall|j: int| 0 <= j < all.len() implies (#[trigger] all[j]).kind == "Memory"@ by {
            if j < a.len() {
                assert(all[j] == a[j]);
            }
        }
    }
}

proof fn lemma_stream_hit_kinds(streams: Seq<crate::report::StreamRow>, needle: Seq<char>)
    ensures
        forall|j: int| 0 <= j < stream_hits(streams, needle).len() ==> (#[trigger] stream_hits(
            streams,
            needle,
        )[j]).kind == "Stream"@,
    decreases streams.len(),
{
    if streams.len() > 0 {
        lemma_stream_hit_kinds(streams.drop_last(), needle);
        let a = stream_hits(streams.drop_last(), needle);
        let all = stream_hits(streams, needle);
        assert forall|j: int| 0 <= j < all.len() implies (#[trigger] all[j]).kind == "Stream"@ by {
            if j < a.len() {
                assert(all[j] == a[j]);
            }
        }
    }
}

/// Only the module part of the search gives "Module" hits.
proof fn lemma_hits_kinds(report: DumpReport, needle: Seq<char>)
    ensures
        forall|j: int| 0 <= j < thread_hits(report.threads@, needle).len() ==> (#[trigger] thread_hits(
            report.threads@,
            needle,
        )[j]).kind != "Module"@,
        forall|j: int| 0 <= j < memory_hits(report.memory@, needle).len() ==> (#[trigger] memory_hits(
            report.memory@,
            needle,
        )[j]).kind != "Module"@,
        forall|j: int| 0 <= j < stream_hits(report.streams@, needle).len() ==> (#[trigger] stream_hits(
            report.streams@,
            needle,
        )[j]).kind != "Module"@,
{
    lemma_module_differs();
    lemma_thread_hit_kinds(report.threads@, needle);
    lemma_memory_hit_kinds(report.memory@, needle);
    lemma_stream_hit_kinds(report.streams@, needle);
}

// ---------------------------------------------------------------------------
// Laws of the crash signature and the likely cause
// ---------------------------------------------------------------------------

proof fn lemma_prefix_cancel(p: Seq<char>, a: Seq<char>, b: Seq<char>)
    requires
        p + a == p + b,
    ensures
        a == b,
{
    assert((p + a).skip(p.len() as int) =~= a);
    assert((p + b).skip(p.len() as int) =~= b);
}

proof fn lemma_suffix_cancel(a: Seq<char>, b: Seq<char>, t: Seq<char>)
    requires
        a + t == b + t,
    ensures
        a == b,
{
    assert((a + t).len() == a.len() + t.len());
    assert((b + t).len() == b.len() + t.len());
    assert(a.len() == b.len());
    assert((a + t).take(a.len() as int) =~= a);
    assert((b + t).take(b.len() as int) =~= b);
}

/// Different addresses have different texts.
proof fn lemma_address_text_injective(a: Option<u64>, b: Option<u64>)
    requires
        a != b,
    ensures
        address_text(a) != address_text(b),
{
    reveal_strlit("0x");
    match (a, b) {
        (Some(x), Some(y)) => {
            crate::report::lemma_address_text_roundtrip(x);
            crate::report::lemma_address_text_roundtrip(y);
        },
        (Some(_), None) => {
            assert(address_text(a)[0] != address_text(b)[0]);
        },
        (None, Some(_)) => {
            assert(address_text(a)[0] != address_text(b)[0]);
        },
        (None, None) => {},
    }
}

/// A frame without a function name keeps its instruction address in the
/// signature: two such frames of the same module at different addresses sign
/// differently.
pub proof fn lemma_unsymbolized_frames_keep_their_address(f: FrameRow, g: FrameRow)
    requires
        f.function@.len() == 0,
        g.function@.len() == 0,
        f.module@ == g.module@,
        f.instruction@ != g.instruction@,
    ensures
        frame_signature(f) != frame_signature(g),
{
    lemma_address_text_injective(f.instruction@, g.instruction@);
    if frame_signature(f) == frame_signature(g) {
        lemma_prefix_cancel(f.module@ + "+"@, address_text(f.instruction@), address_text(g.instruction@));
    }
}

proof fn lemma_joined_differ(a: Seq<FrameRow>, b: Seq<FrameRow>, k: int)
    requires
        a.len() == b.len(),
        0 <= k < a.len(),
        forall|j: int| 0 <= j < a.len() && j != k ==> a[j] == b[j],
        frame_signature(a[k]) != frame_signature(b[k]),
    ensures
        joined_signatures(a) != joined_signatures(b),
    decreases a.len(),
{
    let n = a.len();
    if n == 1 {
    } else if k == n - 1 {
        assert(a.drop_last() =~= b.drop_last());
        let p = joined_signatures(a.drop_last()) + " \u{2192} "@;
        if joined_signatures(a) == joined_signatures(b) {
            lemma_prefix_cancel(p, frame_signature(a.last()), frame_signature(b.last()));
        }
    } else {
        lemma_joined_differ(a.drop_last(), b.drop_last(), k);
        assert(a.last() == b.last());
        let t = " \u{2192} "@ + frame_signature(a.last());
        assert(joined_signatures(a) == joined_signatures(a.drop_last()) + t);
        assert(joined_signatures(b) == joined_signatures(b.drop_last()) + t);
        if joined_signatures(a) == joined_signatures(b) {
            lemma_suffix_cancel(joined_signatures(a.drop_last()), joined_signatures(b.drop_last()), t);
        }
    }
}

/// Crash sites that differ only in the address of one signed frame without a
/// function name get different signatures; and a crash whose crashed thread
/// recovered a single frame is signed by the reason and that frame:
/// `module!function`, or `module+address` when the function is unknown.
pub proof fn lemma_signature_tells_crash_sites_apart(r1: DumpReport, r2: DumpReport, k: int)
    requires
        r1.crash_reason@ == r2.crash_reason@,
        signature_frames(r1).len() == signature_frames(r2).len(),
        0 <= k < signature_frames(r1).len(),
        forall|j: int|
            0 <= j < signature_frames(r1).len() && j != k ==> signature_frames(r1)[j]
                == signature_frames(r2)[j],
        signature_frames(r1)[k].function@.len() == 0,
        signature_frames(r2)[k].function@.len() == 0,
        signature_frames(r1)[k].module@ == signature_frames(r2)[k].module@,
        signature_frames(r1)[k].instruction@ != signature_frames(r2)[k].instruction@,
    ensures
        signature_of(r1) != signature_of(r2),
{
    lemma_unsymbolized_frames_keep_their_address(signature_frames(r1)[k], signature_frames(r2)[k]);
    lemma_joined_differ(signature_frames(r1), signature_frames(r2), k);
    if signature_of(r1) == signature_of(r2) {
        lemma_prefix_cancel(
            r1.crash_reason@ + " \u{b7} "@,
            joined_signatures(signature_frames(r1)),
            joined_signatures(signature_frames(r2)),
        );
    }
}

/// A crash whose crashed thread recovered a single frame is signed by its
/// reason and that frame: `module!function`, or, when the function is
/// unknown, `module+` and the frame's instruction address.
pub proof fn lemma_single_frame_signature(report: DumpReport)
    requires
        first_crashed(report.threads@) is Some,
        report.threads@[first_crashed(report.threads@)->0].frames@.len() == 1,
    ensures
        ({
            let f = report.threads@[first_crashed(report.threads@)->0].frames@[0];
            signature_of(report) == report.crash_reason@ + " \u{b7} "@ + f.module@ + (if f.function@.len()
                == 0 {
                "+"@ + address_text(f.instruction@)
            } else {
                "!"@ + f.function@
            })
        }),
{
    let f = report.threads@[first_crashed(report.threads@)->0].frames@[0];
    assert(signature_frames(report).len() == 1);
    assert(signature_frames(report)[0] == f);
    if f.function@.len() == 0 {
        assert(signature_of(report) =~= report.crash_reason@ + " \u{b7} "@ + f.module@ + ("+"@
            + address_text(f.instruction@)));
    } else {
        assert(signature_of(report) =~= report.crash_reason@ + " \u{b7} "@ + f.module@ + ("!"@
            + f.function@));
    }
}

/// The likely cause, read from the crash reason with ASCII case ignored and
/// from whether the fault address is known and below 4096, in this order of
/// precedence: a null-pointer access for an access violation or segmentation
/// fault near zero; stack exhaustion for a stack overflow; an invalid
/// instruction for an illegal instruction; an arithmetic fault for a divide
/// error; an invalid memory access for any other access violation or
/// segmentation fault; otherwise frame-level investigation.
pub proof fn lemma_likely_cause_cases(report: DumpReport)
    ensures
        ({
            let reason = lower(report.crash_reason@);
            let near_null = match report.crash_address@ {
                Some(a) => a < 4096,
                None => false,
            };
            let access = contains(reason, "access"@) || contains(reason, "segv"@);
            let overflow = contains(reason, "stack_overflow"@) || contains(reason, "stack overflow"@);
            let illegal = contains(reason, "illegal_instruction"@) || contains(
                reason,
                "illegal instruction"@,
            );
            let divide = contains(reason, "divide"@);
            &&& near_null && access ==> cause_of(report) == "probable null-pointer access"@
            &&& !(near_null && access) && overflow ==> cause_of(report)
                == "probable recursion or stack exhaustion"@
            &&& !(near_null && access) && !overflow && illegal ==> cause_of(report)
                == "invalid instruction or CPU incompatibility"@
            &&& !(near_null && access) && !overflow && !illegal && divide ==> cause_of(report)
                == "arithmetic fault"@
            &&& !near_null && access && !overflow && !illegal && !divide ==> cause_of(report)
                == "invalid memory access"@
            &&& !access && !overflow && !illegal && !divide ==> cause_of(report)
                == "cause requires frame-level investigation"@
        }),
{
}

// ---------------------------------------------------------------------------
// What the search finds, beyond modules
// ---------------------------------------------------------------------------

proof fn lemma_concat_contains(a: Seq<HitView>, b: Seq<HitView>, h: HitView)
    ensures
        a.contains(h) ==> (a + b).contains(h),
        b.contains(h) ==> (a + b).contains(h),
{
    if a.contains(h) {
        let j = choose|j: int| 0 <= j < a.len() && a[j] == h;
        assert((a + b)[j] == h);
    }
    if b.contains(h) {
        let j = choose|j: int| 0 <= j < b.len() && b[j] == h;
        assert((a + b)[a.len() + j] == h);
    }
}

proof fn lemma_frame_hits_complete(
    thread: crate::report::ThreadRow,
    frames: Seq<FrameRow>,
    needle: Seq<char>,
    j: int,
)
    requires
        0 <= j < frames.len(),
        frame_matches(frames[j], needle),
    ensures
        frame_hits(thread, frames, needle).contains(frame_hit(thread, frames[j])),
    decreases frames.len(),
{
    let rest = frame_hits(thread, frames.drop_last(), needle);
    let tail = if frame_matches(frames.last(), needle) {
        seq![frame_hit(thread, frames.last())]
    } else {
        Seq::<HitView>::empty()
    };
    assert(frame_hits(thread, frames, needle) == rest + tail);
    if j < frames.len() - 1 {
        lemma_frame_hits_complete(thread, frames.drop_last(), needle, j);
        assert(frames.drop_last()[j] == frames[j]);
        lemma_concat_contains(rest, tail, frame_hit(thread, frames[j]));
    } else {
        assert(tail[0] == frame_hit(thread, frames[j]));
        lemma_concat_contains(rest, tail, frame_hit(thread, frames[j]));
    }
}

proof fn lemma_thread_hits_complete(threads: Seq<crate::report::ThreadRow>, needle: Seq<char>, i: int)
    requires
        0 <= i < threads.len(),
    ensures
        contains(lower(threads[i].name@), needle) || contains(dec(threads[i].id as nat), needle)
            ==> thread_hits(threads, needle).contains(
            HitView {
                kind: "Thread"@,
                value: dec(threads[i].id as nat) + " \u{b7} "@ + threads[i].name@,
            },
        ),
        forall|j: int|
            0 <= j < threads[i].frames@.len() && frame_matches(
                #[trigger] threads[i].frames@[j],
                needle,
            ) ==> thread_hits(threads, needle).contains(frame_hit(threads[i], threads[i].frames@[j])),
    decreases threads.len(),
{
    let t = threads.last();
    let a = thread_hits(threads.drop_last(), needle);
    let mid = if text_matches(t.name@, needle) || contains(dec(t.id as nat), needle) {
        seq![HitView { kind: "Thread"@, value: dec(t.id as nat) + " \u{b7} "@ + t.name@ }]
    } else {
        Seq::<HitView>::empty()
    };
    let f = frame_hits(t, t.frames@, needle);
    assert(thread_hits(threads, needle) == a + mid + f);
    let th = HitView {
        kind: "Thread"@,
        value: dec(threads[i].id as nat) + " \u{b7} "@ + threads[i].name@,
    };
    if i < threads.len() - 1 {
        lemma_thread_hits_complete(threads.drop_last(), needle, i);
        assert(threads.drop_last()[i] == threads[i]);
        lemma_concat_contains(a, mid, th);
        lemma_concat_contains(a + mid, f, th);
        assert forall|j: int|
            0 <= j < threads[i].frames@.len() && frame_matches(
                #[trigger] threads[i].frames@[j],
                needle,
            ) implies thread_hits(threads, needle).contains(
            frame_hit(threads[i], threads[i].frames@[j]),
        ) by {
            let h = frame_hit(threads[i], threads[i].frames@[j]);
            lemma_concat_contains(a, mid, h);
            lemma_concat_contains(a + mid, f, h);
        }
    } else {
        if contains(lower(t.name@), needle) || contains(dec(t.id as nat), needle) {
            assert(mid[0] == th);
            lemma_concat_contains(a, mid, th);
            lemma_concat_contains(a + mid, f, th);
        }
        assert forall|j: int|
            0 <= j < t.frames@.len() && frame_matches(#[trigger] t.frames@[j], needle) implies thread_hits(
            threads,
            needle,
        ).contains(frame_hit(t, t.frames@[j])) by {
            lemma_frame_hits_complete(t, t.frames@, needle, j);
            lemma_concat_contains(a + mid, f, frame_hit(t, t.frames@[j]));
        }
    }
}

proof fn lemma_memory_hits_complete(memory: Seq<crate::report::MemoryRow>, needle: Seq<char>, i: int)
    requires
        0 <= i < memory.len(),
        contains(lower(address_text(memory[i].start@)), needle),
    ensures
        memory_hits(memory, needle).contains(
            HitView {
                kind: "Memory"@,
                value: address_text(memory[i].start@) + " \u{b7} "@ + dec(memory[i].size as nat)
                    + " bytes"@,
            },
        ),
    decreases memory.len(),
{
    let r = memory.last();
    let a = memory_hits(memory.drop_last(), needle);
    let tail = if text_matches(address_text(r.start@), needle) {
        seq![
            HitView {
                kind: "Memory"@,
                value: address_text(r.start@) + " \u{b7} "@ + dec(r.size as nat) + " bytes"@,
            },
        ]
    } else {
        Seq::<HitView>::empty()
    };
    let h = HitView {
        kind: "Memory"@,
        value: address_text(memory[i].start@) + " \u{b7} "@ + dec(memory[i].size as nat) + " bytes"@,
    };
    assert(memory_hits(memory, needle) == a + tail);
    if i < memory.len() - 1 {
        lemma_memory_hits_complete(memory.drop_last(), needle, i);
        assert(memory.drop_last()[i] == memory[i]);
    } else {
        assert(tail[0] == h);
    }
    lemma_concat_contains(a, tail, h);
}

proof fn lemma_stream_hits_complete(streams: Seq<crate::report::StreamRow>, needle: Seq<char>, i: int)
    requires
        0 <= i < streams.len(),
        contains(lower(streams[i].kind@), needle),
    ensures
        stream_hits(streams, needle).contains(HitView { kind: "Stream"@, value: streams[i].kind@ }),
    decreases streams.len(),
{
    let st = streams.last();
    let a = stream_hits(streams.drop_last(), needle);
    let tail = if text_matches(st.kind@, needle) {
        seq![HitView { kind: "Stream"@, value: st.kind@ }]
    } else {
        Seq::<HitView>::empty()
    };
    let h = HitView { kind: "Stream"@, value: streams[i].kind@ };
    assert(stream_hits(streams, needle) == a + tail);
    if i < streams.len() - 1 {
        lemma_stream_hits_complete(streams.drop_last(), needle, i);
        assert(streams.drop_last()[i] == streams[i]);
    } else {
        assert(tail[0] == h);
    }
    lemma_concat_contains(a, tail, h);
}

/// The search finds every kind of evidence by its own text, ignoring ASCII
/// case, for a query that is not blank: a thread by its name or id, a stack
/// frame by its function, module, source file, instruction address or
/// function offset, a memory region by its start address, and a stream by
/// its kind; blank queries find nothing.
pub proof fn lemma_search_finds_evidence(report: DumpReport, query: Seq<char>)
    ensures
        lower(trim(query)).len() == 0 ==> search_hits(report, query).len() == 0,
        lower(trim(query)).len() > 0 ==> {
            let needle = lower(trim(query));
            &&& forall|i: int|
                0 <= i < report.threads@.len() && (contains(
                    lower((#[trigger] report.threads@[i]).name@),
                    needle,
                ) || contains(dec(report.threads@[i].id as nat), needle)) ==> search_hits(
                    report,
                    query,
                ).contains(
                    HitView {
                        kind: "Thread"@,
                        value: dec(report.threads@[i].id as nat) + " \u{b7} "@
                            + report.threads@[i].name@,
                    },
                )
            &&& forall|i: int, j: int|
                0 <= i < report.threads@.len() && 0 <= j < report.threads@[i].frames@.len() && {
                    let f = #[trigger] report.threads@[i].frames@[j];
                    contains(lower(f.function@), needle) || contains(lower(f.module@), needle)
                        || contains(lower(f.source_file@), needle) || contains(
                        lower(address_text(f.instruction@)),
                        needle,
                    ) || contains(lower(f.function_offset@), needle)
                } ==> search_hits(report, query).contains(
                    HitView {
                        kind: "Stack frame"@,
                        value: "Thread "@ + dec(report.threads@[i].id as nat) + " \u{b7} "@
                            + report.threads@[i].frames@[j].module@ + "!"@ + function_or_na(
                            report.threads@[i].frames@[j],
                        ) + " \u{b7} "@ + report.threads@[i].frames@[j].source_file@ + ":"@
                            + dec(line_or_zero(report.threads@[i].frames@[j])),
                    },
                )
            &&& forall|i: int|
                0 <= i < report.memory@.len() && contains(
                    lower(address_text((#[trigger] report.memory@[i]).start@)),
                    needle,
                ) ==> search_hits(report, query).contains(
                    HitView {
                        kind: "Memory"@,
                        value: address_text(report.memory@[i].start@) + " \u{b7} "@ + dec(
                            report.memory@[i].size as nat,
                        ) + " bytes"@,
                    },
                )
            &&& forall|i: int|
                0 <= i < report.streams@.len() && contains(
                    lower((#[trigger] report.streams@[i]).kind@),
                    needle,
                ) ==> search_hits(report, query).contains(
                    HitView { kind: "Stream"@, value: report.streams@[i].kind@ },
                )
        },
{
    let needle = lower(trim(query));
    if needle.len() > 0 {
        let t = thread_hits(report.threads@, needle);
        let m = module_hits(report.modules@, needle);
        let r = memory_hits(report.memory@, needle);
        let st = stream_hits(report.streams@, needle);
        let all = search_hits(report, query);
        assert(all == t + m + r + st);
        assert forall|i: int|
            0 <= i < report.threads@.len() && (contains(
                lower((#[trigger] report.threads@[i]).name@),
                needle,
            ) || contains(dec(report.threads@[i].id as nat), needle)) implies all.contains(
            HitView {
                kind: "Thread"@,
                value: dec(report.threads@[i].id as nat) + " \u{b7} "@ + report.threads@[i].name@,
            },
        ) by {
            let h = HitView {
                kind: "Thread"@,
                value: dec(report.threads@[i].id as nat) + " \u{b7} "@ + report.threads@[i].name@,
            };
            lemma_thread_hits_complete(report.threads@, needle, i);
            lemma_concat_contains(t, m, h);
            lemma_concat_contains(t + m, r, h);
            lemma_concat_contains(t + m + r, st, h);
        }
        assert forall|i: int, j: int|
            0 <= i < report.threads@.len() && 0 <= j < report.threads@[i].frames@.len() && {
                let f = #[trigger] report.threads@[i].frames@[j];
                contains(lower(f.function@), needle) || contains(lower(f.module@), needle)
                    || contains(lower(f.source_file@), needle) || contains(
                    lower(address_text(f.instruction@)),
                    needle,
                ) || contains(lower(f.function_offset@), needle)
            } implies all.contains(
            HitView {
                kind: "Stack frame"@,
                value: "Thread "@ + dec(report.threads@[i].id as nat) + " \u{b7} "@
                    + report.threads@[i].frames@[j].module@ + "!"@ + function_or_na(
                    report.threads@[i].frames@[j],
                ) + " \u{b7} "@ + report.threads@[i].frames@[j].source_file@ + ":"@ + dec(
                    line_or_zero(report.threads@[i].frames@[j]),
                ),
            },
        ) by {
            let th = report.threads@[i];
            let f = th.frames@[j];
            let h = frame_hit(th, f);
            assert(frame_matches(f, needle));
            lemma_thread_hits_complete(report.threads@, needle, i);
            assert(t.contains(h));
            lemma_concat_contains(t, m, h);
            lemma_concat_contains(t + m, r, h);
            lemma_concat_contains(t + m + r, st, h);
        }
        assert forall|i: int|
            0 <= i < report.memory@.len() && contains(
                lower(address_text((#[trigger] report.memory@[i]).start@)),
                needle,
            ) implies all.contains(
            HitView {
                kind: "Memory"@,
                value: address_text(report.memory@[i].start@) + " \u{b7} "@ + dec(
                    report.memory@[i].size as nat,
                ) + " bytes"@,
            },
        ) by {
            let h = HitView {
                kind: "Memory"@,
                value: address_text(report.memory@[i].start@) + " \u{b7} "@ + dec(
                    report.memory@[i].size as nat,
                ) + " bytes"@,
            };
            lemma_memory_hits_complete(report.memory@, needle, i);
            lemma_concat_contains(t + m, r, h);
            lemma_concat_contains(t + m + r, st, h);
        }
        assert forall|i: int|
            0 <= i < report.streams@.len() && contains(
                lower((#[trigger] report.streams@[i]).kind@),
                needle,
            ) implies all.contains(HitView { kind: "Stream"@, value: report.streams@[i].kind@ }) by {
            let h = HitView { kind: "Stream"@, value: report.streams@[i].kind@ };
            lemma_stream_hits_complete(report.streams@, needle, i);
            lemma_concat_contains(t + m + r, st, h);
        }
    }
}

/// The signature is the crash reason followed by the top frames, at most
/// three, of the first crashed thread, each as `module!function`, or
/// `module+address` when the function is unknown, joined by arrows; with no
/// crashed thread it is the reason alone.
pub proof fn lemma_signature_uses_top_three(report: DumpReport)
    ensures
        ({
            let head = report.crash_reason@ + " \u{b7} "@;
            let part = |f: FrameRow|
                if f.function@.len() == 0 {
                    f.module@ + "+"@ + address_text(f.instruction@)
                } else {
                    f.module@ + "!"@ + f.function@
                };
            let arrow = " \u{2192} "@;
            match first_crashed(report.threads@) {
                None => signature_of(report) == head,
                Some(t) => {
                    let fr = report.threads@[t].frames@;
                    &&& fr.len() == 0 ==> signature_of(report) == head
                    &&& fr.len() == 1 ==> signature_of(report) == head + part(fr[0])
                    &&& fr.len() == 2 ==> signature_of(report) == head + part(fr[0]) + arrow + part(
                        fr[1],
                    )
                    &&& fr.len() >= 3 ==> signature_of(report) == head + part(fr[0]) + arrow + part(
                        fr[1],
                    ) + arrow + part(fr[2])
                },
            }
        }),
{
    let head = report.crash_reason@ + " \u{b7} "@;
    let arrow = " \u{2192} "@;
    if let Some(t) = first_crashed(report.threads@) {
        let fr = report.threads@[t].frames@;
        let sf = signature_frames(report);
        if fr.len() >= 3 {
            assert(sf =~= fr.take(3));
            assert(sf.drop_last().drop_last() =~= seq![fr[0]]);
            assert(sf.drop_last() =~= seq![fr[0], fr[1]]);
            assert(joined_signatures(sf.drop_last().drop_last()) == frame_signature(fr[0]));
            assert(joined_signatures(sf.drop_last()) == frame_signature(fr[0]) + arrow
                + frame_signature(fr[1]));
            assert(signature_of(report) =~= head + frame_signature(fr[0]) + arrow + frame_signature(
                fr[1],
            ) + arrow + frame_signature(fr[2]));
        } else if fr.len() == 2 {
            assert(sf == fr);
            assert(fr.drop_last() =~= seq![fr[0]]);
            assert(joined_signatures(fr.drop_last()) == frame_signature(fr[0]));
            assert(fr.last() == fr[1]);
            assert(signature_of(report) =~= head + frame_signature(fr[0]) + arrow + frame_signature(
                fr[1],
            ));
        } else if fr.len() == 1 {
            assert(signature_of(report) =~= head + frame_signature(fr[0]));
        } else {
            assert(signature_of(report) =~= head);
        }
    } else {
        assert(signature_of(report) =~= head);
    }
}

// ---------------------------------------------------------------------------
// What every hit stands for
// ---------------------------------------------------------------------------

/// The hit shown for a thread: its id and name.
pub open spec fn thread_hit(t: crate::report::ThreadRow) -> HitView {
    HitView { kind: "Thread"@, value: dec(t.id as nat) + " \u{b7} "@ + t.name@ }
}

/// A thread whose name (ignoring ASCII case) or decimal id holds the needle.
pub open spec fn thread_found(t: crate::report::ThreadRow, needle: Seq<char>) -> bool {
    contains(lower(t.name@), needle) || contains(dec(t.id as nat), needle)
}

/// A stack frame whose function, module, source file, instruction address or
/// function offset holds the needle, ignoring ASCII case.
pub open spec fn frame_found(f: FrameRow, needle: Seq<char>) -> bool {
    contains(lower(f.function@), needle) || contains(lower(f.module@), needle) || contains(
        lower(f.source_file@),
        needle,
    ) || contains(lower(address_text(f.instruction@)), needle) || contains(
        lower(f.function_offset@),
        needle,
    )
}

/// The hit shown for a stack frame of thread `t`: the thread's id, the
/// module and function (`Not available` when it has none), and the source
/// file and line (0 when none is known).
pub open spec fn frame_hit_shown(t: crate::report::ThreadRow, f: FrameRow) -> HitView {
    HitView {
        kind: "Stack frame"@,
        value: "Thread "@ + dec(t.id as nat) + " \u{b7} "@ + f.module@ + "!"@ + (if f.function@.len()
            == 0 {
            "Not available"@
        } else {
            f.function@
        }) + " \u{b7} "@ + f.source_file@ + ":"@ + dec(
            match f.source_line {
                Some(l) => l as nat,
                None => 0,
            },
        ),
    }
}

/// A hit that stands for evidence holding the needle: a thread found by its
/// name or id, a stack frame found by its text, a module found by its text,
/// a memory region found by its start address, or a stream found by its
/// kind, each shown as the search shows it.
pub open spec fn hit_stands_for_evidence(report: DumpReport, needle: Seq<char>, h: HitView) -> bool {
    ||| exists|i: int|
        0 <= i < report.threads@.len() && thread_found(#[trigger] report.threads@[i], needle) && h
            == thread_hit(report.threads@[i])
    ||| exists|i: int, j: int|
        0 <= i < report.threads@.len() && 0 <= j < report.threads@[i].frames@.len() && frame_found(
            #[trigger] report.threads@[i].frames@[j],
            needle,
        ) && h == frame_hit_shown(report.threads@[i], report.threads@[i].frames@[j])
    ||| exists|i: int|
        0 <= i < report.modules@.len() && module_found(#[trigger] report.modules@[i], needle) && h
            == module_hit(report.modules@[i])
    ||| exists|i: int|
        0 <= i < report.memory@.len() && contains(
            lower(address_text((#[trigger] report.memory@[i]).start@)),
            needle,
        ) && h == HitView {
            kind: "Memory"@,
            value: address_text(report.memory@[i].start@) + " \u{b7} "@ + dec(
                report.memory@[i].size as nat,
            ) + " bytes"@,
        }
    ||| exists|i: int|
        0 <= i < report.streams@.len() && contains(lower((#[trigger] report.streams@[i]).kind@), needle)
            && h == HitView { kind: "Stream"@, value: report.streams@[i].kind@ }
}

proof fn lemma_frame_hits_sound(
    thread: crate::report::ThreadRow,
    frames: Seq<FrameRow>,
    needle: Seq<char>,
    k: int,
)
    requires
        0 <= k < frame_hits(thread, frames, needle).len(),
    ensures
        exists|x: int|
            0 <= x < frames.len() && frame_found(#[trigger] frames[x], needle) && frame_hits(
                thread,
                frames,
                needle,
            )[k] == frame_hit_shown(thread, frames[x]),
    decreases frames.len(),
{
    let rest = frame_hits(thread, frames.drop_last(), needle);
    if k < rest.len() {
        lemma_frame_hits_sound(thread, frames.drop_last(), needle, k);
        let x = choose|x: int|
            0 <= x < frames.drop_last().len() && frame_found(#[trigger] frames.drop_last()[x], needle)
                && rest[k] == frame_hit_shown(thread, frames.drop_last()[x]);
        assert(frames[x] == frames.drop_last()[x]);
    } else {
        let x = frames.len() - 1;
        assert(frame_found(frames[x], needle));
        assert(frame_hit(thread, frames[x]) == frame_hit_shown(thread, frames[x]));
    }
}

proof fn lemma_thread_hits_sound(threads: Seq<crate::report::ThreadRow>, needle: Seq<char>, k: int)
    requires
        0 <= k < thread_hits(threads, needle).len(),
    ensures
        (exists|i: int|
            0 <= i < threads.len() && thread_found(#[trigger] threads[i], needle) && thread_hits(
                threads,
                needle,
            )[k] == thread_hit(threads[i])) || (exists|i: int, j: int|
            0 <= i < threads.len() && 0 <= j < threads[i].frames@.len() && frame_found(
                #[trigger] threads[i].frames@[j],
                needle,
            ) && thread_hits(threads, needle)[k] == frame_hit_shown(threads[i], threads[i].frames@[j])),
    decreases threads.len(),
{
    let t = threads.last();
    let n = threads.len() - 1;
    let a = thread_hits(threads.drop_last(), needle);
    let mid = if text_matches(t.name@, needle) || contains(dec(t.id as nat), needle) {
        seq![HitView { kind: "Thread"@, value: dec(t.id as nat) + " \u{b7} "@ + t.name@ }]
    } else {
        Seq::<HitView>::empty()
    };
    let f = frame_hits(t, t.frames@, needle);
    let all = thread_hits(threads, needle);
    assert(all == a + mid + f);
    if k < a.len() {
        lemma_thread_hits_sound(threads.drop_last(), needle, k);
        assert(all[k] == a[k]);
        if exists|i: int|
            0 <= i < threads.drop_last().len() && thread_found(#[trigger] threads.drop_last()[i], needle)
                && a[k] == thread_hit(threads.drop_last()[i]) {
            let i = choose|i: int|
                0 <= i < threads.drop_last().len() && thread_found(
                    #[trigger] threads.drop_last()[i],
                    needle,
                ) && a[k] == thread_hit(threads.drop_last()[i]);
            assert(threads[i] == threads.drop_last()[i]);
        } else {
            let (i, j) = choose|i: int, j: int|
                0 <= i < threads.drop_last().len() && 0 <= j < threads.drop_last()[i].frames@.len()
                    && frame_found(#[trigger] threads.drop_last()[i].frames@[j], needle) && a[k]
                    == frame_hit_shown(threads.drop_last()[i], threads.drop_last()[i].frames@[j]);
            assert(threads[i] == threads.drop_last()[i]);
        }
    } else if k < a.len() + mid.len() {
        assert(all[k] == mid[k - a.len()]);
        assert(thread_found(threads[n], needle));
        assert(all[k] == thread_hit(threads[n]));
    } else {
        assert(all[k] == f[k - a.len() - mid.len()]);
        lemma_frame_hits_sound(t, t.frames@, needle, k - a.len() - mid.len());
        let x = choose|x: int|
            0 <= x < t.frames@.len() && frame_found(#[trigger] t.frames@[x], needle) && f[k - a.len()
                - mid.len()] == frame_hit_shown(t, t.frames@[x]);
        assert(threads[n].frames@[x] == t.frames@[x]);
    }
}

proof fn lemma_memory_hits_sound(memory: Seq<crate::report::MemoryRow>, needle: Seq<char>, k: int)
    requires
        0 <= k < memory_hits(memory, needle).len(),
    ensures
        exists|i: int|
            0 <= i < memory.len() && contains(lower(address_text((#[trigger] memory[i]).start@)), needle)
                && memory_hits(memory, needle)[k] == (HitView {
                kind: "Memory"@,
                value: address_text(memory[i].start@) + " \u{b7} "@ + dec(memory[i].size as nat)
                    + " bytes"@,
            }),
    decreases memory.len(),
{
    let rest = memory_hits(memory.drop_last(), needle);
    if k < rest.len() {
        lemma_memory_hits_sound(memory.drop_last(), needle, k);
        let i = choose|i: int|
            0 <= i < memory.drop_last().len() && contains(
                lower(address_text((#[trigger] memory.drop_last()[i]).start@)),
                needle,
            ) && rest[k] == HitView {
                kind: "Memory"@,
                value: address_text(memory.drop_last()[i].start@) + " \u{b7} "@ + dec(
                    memory.drop_last()[i].size as nat,
                ) + " bytes"@,
            };
        assert(memory[i] == memory.drop_last()[i]);
    } else {
        let i = memory.len() - 1;
        assert(contains(lower(address_text(memory[i].start@)), needle));
    }
}

proof fn lemma_stream_hits_sound(streams: Seq<crate::report::StreamRow>, needle: Seq<char>, k: int)
    requires
        0 <= k < stream_hits(streams, needle).len(),
    ensures
        exists|i: int|
            0 <= i < streams.len() && contains(lower((#[trigger] streams[i]).kind@), needle)
                && stream_hits(streams, needle)[k] == (HitView { kind: "Stream"@, value: streams[i].kind@ }),
    decreases streams.len(),
{
    let rest = stream_hits(streams.drop_last(), needle);
    if k < rest.len() {
        lemma_stream_hits_sound(streams.drop_last(), needle, k);
        let i = choose|i: int|
            0 <= i < streams.drop_last().len() && contains(
                lower((#[trigger] streams.drop_last()[i]).kind@),
                needle,
            ) && rest[k] == HitView { kind: "Stream"@, value: streams.drop_last()[i].kind@ };
        assert(streams[i] == streams.drop_last()[i]);
    } else {
        let i = streams.len() - 1;
        assert(contains(lower(streams[i].kind@), needle));
    }
}

/// The search gives nothing but evidence that holds the query: every hit is
/// that of a thread, stack frame, module, memory region or stream whose own
/// text holds the trimmed query, ignoring ASCII case, shown as the search
/// shows it.
pub proof fn lemma_search_hits_are_evidence(report: DumpReport, query: Seq<char>)
    ensures
        forall|k: int|
            0 <= k < search_hits(report, query).len() ==> hit_stands_for_evidence(
                report,
                lower(trim(query)),
                #[trigger] search_hits(report, query)[k],
            ),
{
    let needle = lower(trim(query));
    if needle.len() > 0 {
        let t = thread_hits(report.threads@, needle);
        let m = module_hits(report.modules@, needle);
        let r = memory_hits(report.memory@, needle);
        let st = stream_hits(report.streams@, needle);
        let all = search_hits(report, query);
        assert(all == t + m + r + st);
        assert forall|k: int| 0 <= k < all.len() implies hit_stands_for_evidence(
            report,
            needle,
            #[trigger] all[k],
        ) by {
            if k < t.len() {
                assert(all[k] == t[k]);
                lemma_thread_hits_sound(report.threads@, needle, k);
            } else if k < t.len() + m.len() {
                assert(all[k] == m[k - t.len()]);
                lemma_module_hits_sound(report.modules@, needle, k - t.len());
            } else if k < t.len() + m.len() + r.len() {
                assert(all[k] == r[k - t.len() - m.len()]);
                lemma_memory_hits_sound(report.memory@, needle, k - t.len() - m.len());
            } else {
                assert(all[k] == st[k - t.len() - m.len() - r.len()]);
                lemma_stream_hits_sound(report.streams@, needle, k - t.len() - m.len() - r.len());
            }
        }
    }
}

} // verus!
