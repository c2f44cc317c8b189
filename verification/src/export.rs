//! Rendering of reports, stacks and investigation bundles. Writing them to
//! disk is left to the caller.

use crate::investigation::{crash_signature, function_or_na, line_or_zero, signature_of};
use crate::report::{
    address_text, architecture_text, operating_system_text, DumpReport, FrameRow, ThreadRow,
};
use crate::text::{
    dec, dec_right, file_name_or_empty, file_name_string, push_dec, push_dec_right, push_str,
    string_from, string_of, trim, trim_of,
};
use vstd::prelude::*;

verus! {

broadcast use vstd::string::group_string_axioms;

/// The trimmed tags, or `None` when there are none.
pub open spec fn tags_text(tags: Seq<char>) -> Seq<char> {
    if trim(tags).len() == 0 {
        "None"@
    } else {
        trim(tags)
    }
}

/// The tags as shown in exports.
pub fn display_tags(tags: &str) -> (s: String)
    ensures
        s@ == tags_text(tags@),
{
    let t = trim_of(tags);
    if t.len() == 0 {
        string_from("None")
    } else {
        string_of(&t)
    }
}

pub open spec fn crashed_suffix(t: ThreadRow) -> Seq<char> {
    if t.crashed {
        " (crashed)"@
    } else {
        Seq::empty()
    }
}

// ---------------------------------------------------------------------------
// Markdown report
// ---------------------------------------------------------------------------

pub open spec fn shown_path(path: Seq<char>, sanitized: bool) -> Seq<char> {
    if sanitized {
        file_name_or_empty(path)
    } else {
        path
    }
}

/// One frame line of the Markdown report.
pub open spec fn markdown_frame(f: FrameRow, sanitized: bool) -> Seq<char> {
    dec_right(f.index as nat, 3) + " "@ + f.module@ + "!"@ + function_or_na(f) + " "@ + address_text(
        f.instruction@,
    ) + " "@ + shown_path(f.source_file@, sanitized) + ":"@ + dec(line_or_zero(f)) + " ["@
        + f.trust@ + "]\n"@
}

pub open spec fn markdown_frames(frames: Seq<FrameRow>, sanitized: bool) -> Seq<char>
    decreases frames.len(),
{
    if frames.len() == 0 {
        Seq::empty()
    } else {
        markdown_frames(frames.drop_last(), sanitized) + markdown_frame(frames.last(), sanitized)
    }
}

pub open spec fn markdown_thread(t: ThreadRow, sanitized: bool) -> Seq<char> {
    "\n### Thread "@ + dec(t.id as nat) + crashed_suffix(t) + "\n\n```text\n"@ + markdown_frames(
        t.frames@,
        sanitized,
    ) + "```\n"@
}

pub open spec fn markdown_threads(threads: Seq<ThreadRow>, sanitized: bool) -> Seq<char>
    decreases threads.len(),
{
    if threads.len() == 0 {
        Seq::empty()
    } else {
        markdown_threads(threads.drop_last(), sanitized) + markdown_thread(threads.last(), sanitized)
    }
}

pub open spec fn markdown_header(
    report: DumpReport,
    status: Seq<char>,
    tags: Seq<char>,
    sanitized: bool,
) -> Seq<char> {
    "# Crash report\n\n- Dump: `"@ + shown_path(report.path@, sanitized) + "`\n- Report status: "@
        + status + "\n- Tags: "@ + tags_text(tags) + "\n- Crash reason: `"@ + report.crash_reason@
        + "`\n- Fault address: `"@ + address_text(report.crash_address@) + "`\n- Platform: "@
        + operating_system_text(report.operating_system) + " / "@ + architecture_text(
        report.architecture,
    ) + "\n\n## Call stacks\n"@
}

/// The Markdown crash report: a header, each thread's frames in a text
/// block, and the investigator's notes. A sanitized report keeps only the
/// file names of the dump and source paths.
pub open spec fn markdown_of(
    report: DumpReport,
    notes: Seq<char>,
    status: Seq<char>,
    tags: Seq<char>,
    sanitized: bool,
) -> Seq<char> {
    markdown_header(report, status, tags, sanitized) + markdown_threads(report.threads@, sanitized)
        + "\n## Investigator notes\n\n"@ + notes + "\n"@
}

fn push_shown_path(out: &mut String, path: &str, sanitized: bool)
    ensures
        final(out)@ == old(out)@ + shown_path(path@, sanitized),
{
    if sanitized {
        let name = file_name_string(path);
        push_str(out, name.as_str());
    } else {
        push_str(out, path);
    }
}

#[verifier::rlimit(40)]
fn push_markdown_frame(out: &mut String, f: &FrameRow, sanitized: bool)
    ensures
        final(out)@ == old(out)@ + markdown_frame(*f, sanitized),
{
    let ghost start = out@;
    push_dec_right(out, f.index, 3);
    push_str(out, " ");
    push_str(out, f.module.as_str());
    push_str(out, "!");
    if f.function.as_str().is_empty() {
        push_str(out, "Not available");
    } else {
        push_str(out, f.function.as_str());
    }
    push_str(out, " ");
    let a = f.instruction.display();
    push_str(out, a.as_str());
    push_str(out, " ");
    let ghost first = out@;
    assert(first =~= start + dec_right(f.index as nat, 3) + " "@ + f.module@ + "!"@ + function_or_na(*f) + " "@ + address_text(f.instruction@) + " "@);
    push_shown_path(out, f.source_file.as_str(), sanitized);
    push_str(out, ":");
    push_dec(
        out,
        match f.source_line {
            Some(l) => l,
            None => 0,
        },
    );
    push_str(out, " [");
    push_str(out, f.trust.as_str());
    push_str(out, "]\n");
    assert(out@ =~= old(out)@ + markdown_frame(*f, sanitized));
}

fn push_markdown_thread(out: &mut String, t: &ThreadRow, sanitized: bool)
    ensures
        final(out)@ == old(out)@ + markdown_thread(*t, sanitized),
{
    let ghost start = out@;
    push_str(out, "\n### Thread ");
    push_dec(out, t.id as u64);
    if t.crashed {
        push_str(out, " (crashed)");
    }
    push_str(out, "\n\n```text\n");
    let ghost base = out@;
    let n = t.frames.len();
    let mut i: usize = 0;
    while i < n
        invariant
            n == t.frames@.len(),
            i <= n,
            out@ == base + markdown_frames(t.frames@.take(i as int), sanitized),
        decreases n - i,
    {
        push_markdown_frame(out, &t.frames[i], sanitized);
        i = i + 1;
        assert(t.frames@.take(i as int).drop_last() =~= t.frames@.take(i - 1));
        assert(out@ =~= base + markdown_frames(t.frames@.take(i as int), sanitized));
    }
    assert(t.frames@.take(n as int) =~= t.frames@);
    push_str(out, "```\n");
    assert(out@ =~= start + markdown_thread(*t, sanitized));
}

/// The Markdown crash report with the investigator's notes, status and tags.
pub fn render_markdown(report: &DumpReport, notes: &str, status: &str, tags: &str, sanitized: bool) -> (text:
    String)
    ensures
        text@ == markdown_of(*report, notes@, status@, tags@, sanitized),
{
    let mut text = string_from("# Crash report\n\n- Dump: `");
    push_shown_path(&mut text, report.path.as_str(), sanitized);
    push_str(&mut text, "`\n- Report status: ");
    push_str(&mut text, status);
    push_str(&mut text, "\n- Tags: ");
    let shown_tags = display_tags(tags);
    push_str(&mut text, shown_tags.as_str());
    push_str(&mut text, "\n- Crash reason: `");
    push_str(&mut text, report.crash_reason.as_str());
    push_str(&mut text, "`\n- Fault address: `");
    let address = report.crash_address.display();
    push_str(&mut text, address.as_str());
    push_str(&mut text, "`\n- Platform: ");
    let os = report.operating_system.display();
    push_str(&mut text, os.as_str());
    push_str(&mut text, " / ");
    let arch = report.architecture.display();
    push_str(&mut text, arch.as_str());
    push_str(&mut text, "\n\n## Call stacks\n");
    let ghost header = text@;
    assert(header =~= markdown_header(*report, status@, tags@, sanitized));
    let n = report.threads.len();
    let mut i: usize = 0;
    while i < n
        invariant
            n == report.threads@.len(),
            i <= n,
            text@ == header + markdown_threads(report.threads@.take(i as int), sanitized),
        decreases n - i,
    {
        push_markdown_thread(&mut text, &report.threads[i], sanitized);
        i = i + 1;
        assert(report.threads@.take(i as int).drop_last() =~= report.threads@.take(i - 1));
        assert(text@ =~= header + markdown_threads(report.threads@.take(i as int), sanitized));
    }
    assert(report.threads@.take(n as int) =~= report.threads@);
    push_str(&mut text, "\n## Investigator notes\n\n");
    push_str(&mut text, notes);
    push_str(&mut text, "\n");
    assert(text@ =~= markdown_of(*report, notes@, status@, tags@, sanitized));
    text
}

// ---------------------------------------------------------------------------
// Plain stacks
// ---------------------------------------------------------------------------

pub open spec fn stack_frame_line(f: FrameRow) -> Seq<char> {
    "  "@ + dec_right(f.index as nat, 3) + " "@ + f.module@ + "!"@ + function_or_na(f) + " "@
        + address_text(f.instruction@) + "\n"@
}

pub open spec fn stack_frames(frames: Seq<FrameRow>) -> Seq<char>
    decreases frames.len(),
{
    if frames.len() == 0 {
        Seq::empty()
    } else {
        stack_frames(frames.drop_last()) + stack_frame_line(frames.last())
    }
}

pub open spec fn stack_thread(t: ThreadRow) -> Seq<char> {
    "Thread "@ + dec(t.id as nat) + crashed_suffix(t) + "\n"@ + stack_frames(t.frames@) + "\n"@
}

/// Every thread's call stack as plain text, the crashed thread marked.
pub open spec fn stack_text(threads: Seq<ThreadRow>) -> Seq<char>
    decreases threads.len(),
{
    if threads.len() == 0 {
        Seq::empty()
    } else {
        stack_text(threads.drop_last()) + stack_thread(threads.last())
    }
}

#[verifier::spinoff_prover]
#[verifier::rlimit(40)]
fn push_stack_thread(out: &mut String, t: &ThreadRow)
    ensures
        final(out)@ == old(out)@ + stack_thread(*t),
{
    let ghost start = out@;
    push_str(out, "Thread ");
    push_dec(out, t.id as u64);
    if t.crashed {
        push_str(out, " (crashed)");
    }
    push_str(out, "\n");
    let ghost base = out@;
    let n = t.frames.len();
    let mut i: usize = 0;
    while i < n
        invariant
            n == t.frames@.len(),
            i <= n,
            out@ == base + stack_frames(t.frames@.take(i as int)),
        decreases n - i,
    {
        let f = &t.frames[i];
        let ghost before = out@;
        push_str(out, "  ");
        push_dec_right(out, f.index, 3);
        push_str(out, " ");
        push_str(out, f.module.as_str());
        push_str(out, "!");
        if f.function.as_str().is_empty() {
            push_str(out, "Not available");
        } else {
            push_str(out, f.function.as_str());
        }
        push_str(out, " ");
        let a = f.instruction.display();
        push_str(out, a.as_str());
        push_str(out, "\n");
        assert(out@ =~= before + stack_frame_line(*f));
        i = i + 1;
        assert(t.frames@.take(i as int).drop_last() =~= t.frames@.take(i - 1));
        assert(out@ =~= base + stack_frames(t.frames@.take(i as int)));
    }
    assert(t.frames@.take(n as int) =~= t.frames@);
    push_str(out, "\n");
    assert(out@ =~= start + stack_thread(*t));
}

/// Plain call stacks of every thread.
pub fn render_stack(report: &DumpReport) -> (text: String)
    ensures
        text@ == stack_text(report.threads@),
{
    let mut text = String::new();
    let n = report.threads.len();
    let mut i: usize = 0;
    while i < n
        invariant
            n == report.threads@.len(),
            i <= n,
            text@ == stack_text(report.threads@.take(i as int)),
        decreases n - i,
    {
        push_stack_thread(&mut text, &report.threads[i]);
        i = i + 1;
        assert(report.threads@.take(i as int).drop_last() =~= report.threads@.take(i - 1));
    }
    assert(report.threads@.take(n as int) =~= report.threads@);
    text
}

// ---------------------------------------------------------------------------
// Investigation bundle
// ---------------------------------------------------------------------------

/// The README of an investigation bundle.
pub open spec fn readme_of(report: DumpReport, notes: Seq<char>, status: Seq<char>, tags: Seq<char>) -> Seq<
    char,
> {
    "# Crash investigation bundle\n\n- Status: "@ + status + "\n- Tags: "@ + tags_text(tags)
        + "\n- Signature: `"@ + signature_of(report) + "`\n- Reason: `"@ + report.crash_reason@
        + "`\n- Address: `"@ + address_text(report.crash_address@)
        + "`\n\n## Contents\n\n- `report.md`: readable crash report and notes\n- `stack.txt`: plain call stacks\n- `analysis.json`: raw processor output\n\n## Notes\n\n"@
        + notes + "\n"@
}

/// The README of an investigation bundle.
pub fn render_bundle_readme(report: &DumpReport, notes: &str, status: &str, tags: &str) -> (text:
    String)
    ensures
        text@ == readme_of(*report, notes@, status@, tags@),
{
    let mut text = string_from("# Crash investigation bundle\n\n- Status: ");
    push_str(&mut text, status);
    push_str(&mut text, "\n- Tags: ");
    let shown_tags = display_tags(tags);
    push_str(&mut text, shown_tags.as_str());
    push_str(&mut text, "\n- Signature: `");
    let signature = crash_signature(report);
    push_str(&mut text, signature.as_str());
    push_str(&mut text, "`\n- Reason: `");
    push_str(&mut text, report.crash_reason.as_str());
    push_str(&mut text, "`\n- Address: `");
    let address = report.crash_address.display();
    push_str(&mut text, address.as_str());
    push_str(
        &mut text,
        "`\n\n## Contents\n\n- `report.md`: readable crash report and notes\n- `stack.txt`: plain call stacks\n- `analysis.json`: raw processor output\n\n## Notes\n\n",
    );
    push_str(&mut text, notes);
    push_str(&mut text, "\n");
    assert(text@ =~= readme_of(*report, notes@, status@, tags@));
    text
}

/// The files of an investigation bundle, by name: the README, the Markdown
/// report (not sanitized), the plain stacks and the raw processor output.
pub fn bundle_files(report: &DumpReport, notes: &str, status: &str, tags: &str) -> (files: Vec<
    (String, String),
>)
    ensures
        files@.len() == 4,
        files@[0].0@ == "README.md"@ && files@[0].1@ == readme_of(*report, notes@, status@, tags@),
        files@[1].0@ == "report.md"@ && files@[1].1@ == markdown_of(
            *report,
            notes@,
            status@,
            tags@,
            false,
        ),
        files@[2].0@ == "stack.txt"@ && files@[2].1@ == stack_text(report.threads@),
        files@[3].0@ == "analysis.json"@ && files@[3].1@ == report.processor_json@,
{
    let mut files: Vec<(String, String)> = Vec::new();
    files.push((string_from("README.md"), render_bundle_readme(report, notes, status, tags)));
    files.push((string_from("report.md"), render_markdown(report, notes, status, tags, false)));
    files.push((string_from("stack.txt"), render_stack(report)));
    files.push((string_from("analysis.json"), report.processor_json.clone()));
    files
}

// ---------------------------------------------------------------------------
// Privacy of the sanitized report
// ---------------------------------------------------------------------------

/// Two frames agree on everything but the directory of their source file.
pub open spec fn frames_alike_but_directories(a: FrameRow, b: FrameRow) -> bool {
    &&& a.index == b.index
    &&& a.module@ == b.module@
    &&& a.function@ == b.function@
    &&& a.instruction@ == b.instruction@
    &&& file_name_or_empty(a.source_file@) == file_name_or_empty(b.source_file@)
    &&& a.source_line == b.source_line
    &&& a.trust@ == b.trust@
}

/// Two threads agree on everything the report shows but the directories of
/// their frames' source files.
pub open spec fn threads_alike_but_directories(a: ThreadRow, b: ThreadRow) -> bool {
    &&& a.id == b.id
    &&& a.crashed == b.crashed
    &&& a.frames@.len() == b.frames@.len()
    &&& forall|i: int|
        0 <= i < a.frames@.len() ==> frames_alike_but_directories(
            #[trigger] a.frames@[i],
            b.frames@[i],
        )
}

/// Two reports agree on everything the Markdown report shows but the
/// directories of the dump's path and of the source files.
pub open spec fn reports_alike_but_directories(a: DumpReport, b: DumpReport) -> bool {
    &&& file_name_or_empty(a.path@) == file_name_or_empty(b.path@)
    &&& a.crash_reason@ == b.crash_reason@
    &&& a.crash_address@ == b.crash_address@
    &&& a.operating_system == b.operating_system
    &&& a.architecture == b.architecture
    &&& a.threads@.len() == b.threads@.len()
    &&& forall|i: int|
        0 <= i < a.threads@.len() ==> threads_alike_but_directories(
            #[trigger] a.threads@[i],
            b.threads@[i],
        )
}

proof fn lemma_sanitized_frames(a: Seq<FrameRow>, b: Seq<FrameRow>)
    requires
        a.len() == b.len(),
        forall|i: int| 0 <= i < a.len() ==> frames_alike_but_directories(#[trigger] a[i], b[i]),
    ensures
        markdown_frames(a, true) == markdown_frames(b, true),
    decreases a.len(),
{
    if a.len() > 0 {
        lemma_sanitized_frames(a.drop_last(), b.drop_last());
        assert(frames_alike_but_directories(a[a.len() - 1], b[b.len() - 1]));
        assert(markdown_frame(a.last(), true) == markdown_frame(b.last(), true));
    }
}

proof fn lemma_sanitized_threads(a: Seq<ThreadRow>, b: Seq<ThreadRow>)
    requires
        a.len() == b.len(),
        forall|i: int| 0 <= i < a.len() ==> threads_alike_but_directories(#[trigger] a[i], b[i]),
    ensures
        markdown_threads(a, true) == markdown_threads(b, true),
    decreases a.len(),
{
    if a.len() > 0 {
        lemma_sanitized_threads(a.drop_last(), b.drop_last());
        let (x, y) = (a.last(), b.last());
        assert(threads_alike_but_directories(a[a.len() - 1], b[b.len() - 1]));
        lemma_sanitized_frames(x.frames@, y.frames@);
        assert(markdown_thread(x, true) == markdown_thread(y, true));
    }
}

/// The privacy-safe report keeps no directory: it reads the same for any two
/// dumps that differ only in the directories of the dump's path and of the
/// source files that the frames name.
pub proof fn lemma_sanitized_report_drops_directories(
    a: DumpReport,
    b: DumpReport,
    notes: Seq<char>,
    status: Seq<char>,
    tags: Seq<char>,
)
    requires
        reports_alike_but_directories(a, b),
    ensures
        markdown_of(a, notes, status, tags, true) == markdown_of(b, notes, status, tags, true),
{
    lemma_sanitized_threads(a.threads@, b.threads@);
    assert(markdown_header(a, status, tags, true) == markdown_header(b, status, tags, true));
}

// ---------------------------------------------------------------------------
// Headings of the plain stacks
// ---------------------------------------------------------------------------

/// In the plain stacks, each thread's block follows those of the threads
/// before it and opens with its heading line, which says ` (crashed)`
/// exactly when the thread is the crashed one.
#[verifier::spinoff_prover]
pub proof fn lemma_stack_text_headings(threads: Seq<ThreadRow>, i: int)
    requires
        0 <= i < threads.len(),
    ensures
        (stack_text(threads.take(i)) + "Thread "@ + dec(threads[i].id as nat) + (if threads[i].crashed {
            " (crashed)"@
        } else {
            Seq::<char>::empty()
        }) + "\n"@).is_prefix_of(stack_text(threads)),
    decreases threads.len(),
{
    let t = threads[i];
    let head = "Thread "@ + dec(t.id as nat) + (if t.crashed {
        " (crashed)"@
    } else {
        Seq::<char>::empty()
    }) + "\n"@;
    let p = stack_text(threads.take(i)) + head;
    assert(p =~= stack_text(threads.take(i)) + "Thread "@ + dec(t.id as nat) + (if t.crashed {
        " (crashed)"@
    } else {
        Seq::<char>::empty()
    }) + "\n"@);
    if i == threads.len() - 1 {
        assert(threads.take(i) =~= threads.drop_last());
        let rest = stack_frames(t.frames@) + "\n"@;
        assert(stack_thread(t) =~= head + rest);
        assert(stack_text(threads) =~= p + rest);
        assert(p =~= stack_text(threads).subrange(0, p.len() as int));
    } else {
        lemma_stack_text_headings(threads.drop_last(), i);
        assert(threads.drop_last().take(i) =~= threads.take(i));
        assert(threads.drop_last()[i] == t);
        let whole = stack_text(threads);
        let part = stack_text(threads.drop_last());
        assert(whole == part + stack_thread(threads.last()));
        assert(p =~= part.subrange(0, p.len() as int));
        assert(p =~= whole.subrange(0, p.len() as int));
    }
}

proof fn lemma_stack_text_take_prefix(threads: Seq<ThreadRow>, k: int)
    requires
        0 <= k <= threads.len(),
    ensures
        stack_text(threads.take(k)).is_prefix_of(stack_text(threads)),
    decreases threads.len(),
{
    if k == threads.len() {
        assert(threads.take(k) =~= threads);
    } else {
        lemma_stack_text_take_prefix(threads.drop_last(), k);
        assert(threads.drop_last().take(k) =~= threads.take(k));
    }
}

proof fn lemma_stack_frames_take_prefix(frames: Seq<FrameRow>, k: int)
    requires
        0 <= k <= frames.len(),
    ensures
        stack_frames(frames.take(k)).is_prefix_of(stack_frames(frames)),
    decreases frames.len(),
{
    if k == frames.len() {
        assert(frames.take(k) =~= frames);
    } else {
        lemma_stack_frames_take_prefix(frames.drop_last(), k);
        assert(frames.drop_last().take(k) =~= frames.take(k));
    }
}

proof fn lemma_stack_block(threads: Seq<ThreadRow>, i: int)
    requires
        0 <= i < threads.len(),
    ensures
        (stack_text(threads.take(i)) + stack_thread(threads[i])).is_prefix_of(stack_text(threads)),
{
    assert(threads.take(i + 1).drop_last() =~= threads.take(i));
    assert(threads.take(i + 1).last() == threads[i]);
    lemma_stack_text_take_prefix(threads, i + 1);
}

proof fn lemma_stack_line(frames: Seq<FrameRow>, j: int)
    requires
        0 <= j < frames.len(),
    ensures
        (stack_frames(frames.take(j)) + stack_frame_line(frames[j])).is_prefix_of(
            stack_frames(frames),
        ),
{
    assert(frames.take(j + 1).drop_last() =~= frames.take(j));
    assert(frames.take(j + 1).last() == frames[j]);
    lemma_stack_frames_take_prefix(frames, j + 1);
}

proof fn lemma_prefix_in_block(
    before: Seq<char>,
    heading: Seq<char>,
    lines_before: Seq<char>,
    line: Seq<char>,
    lines: Seq<char>,
    whole: Seq<char>,
)
    requires
        (lines_before + line).is_prefix_of(lines),
        (before + (heading + lines + "\n"@)).is_prefix_of(whole),
    ensures
        (before + heading + lines_before + line).is_prefix_of(whole),
{
    let c = before + heading;
    let a = lines_before + line;
    let b = lines + "\n"@;
    assert(a =~= lines.subrange(0, a.len() as int));
    assert(a =~= b.subrange(0, a.len() as int));
    let p = before + heading + lines_before + line;
    let q = before + (heading + lines + "\n"@);
    assert(p =~= c + a);
    assert(q =~= c + b);
    assert forall|k: int| 0 <= k < p.len() implies p[k] == q[k] by {
        if k < c.len() {
            assert(p[k] == c[k]);
            assert(q[k] == c[k]);
        } else {
            assert(p[k] == a[k - c.len()]);
            assert(q[k] == b[k - c.len()]);
        }
    }
    assert(p =~= q.subrange(0, p.len() as int));
    assert(p =~= whole.subrange(0, p.len() as int));
}

/// In the plain stacks, each frame of a thread stands on a line of its own
/// after the thread's heading and the lines of the frames above it: two
/// spaces, the frame's index right-aligned in three columns, the module, `!`,
/// the function (or `Not available` when it has none), and the instruction
/// address.
pub proof fn lemma_stack_text_frame_lines(threads: Seq<ThreadRow>, i: int, j: int)
    requires
        0 <= i < threads.len(),
        0 <= j < threads[i].frames@.len(),
    ensures
        ({
            let t = threads[i];
            let f = t.frames@[j];
            (stack_text(threads.take(i)) + ("Thread "@ + dec(t.id as nat) + (if t.crashed {
                " (crashed)"@
            } else {
                Seq::<char>::empty()
            }) + "\n"@) + stack_frames(t.frames@.take(j)) + ("  "@ + dec_right(f.index as nat, 3)
                + " "@ + f.module@ + "!"@ + (if f.function@.len() == 0 {
                "Not available"@
            } else {
                f.function@
            }) + " "@ + address_text(f.instruction@) + "\n"@)).is_prefix_of(stack_text(threads))
        }),
{
    let t = threads[i];
    let f = t.frames@[j];
    lemma_stack_block(threads, i);
    lemma_stack_line(t.frames@, j);
    let heading = "Thread "@ + dec(t.id as nat) + crashed_suffix(t) + "\n"@;
    assert(stack_thread(t) =~= heading + stack_frames(t.frames@) + "\n"@);
    lemma_prefix_in_block(
        stack_text(threads.take(i)),
        heading,
        stack_frames(t.frames@.take(j)),
        stack_frame_line(f),
        stack_frames(t.frames@),
        stack_text(threads),
    );
}

} // verus!
