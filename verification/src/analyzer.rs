//! Minidump ingestion: from the bytes of a dump to a typed report, and the
//! stacks that the stack walker recovered applied to that report.
//!
//! Parser-specific values stop at this module. The rest of the library works
//! on the typed report and does not depend on minidump crate structures.

use crate::memory::sat_add;
use crate::report::{
    architecture_text, CpuArchitecture, DumpReport, MemoryPermissions, MemoryRow, ModuleOwnership,
    ModuleRow, OperatingSystem, PointerSize, StreamRow, SymbolStatus, ThreadRow, VirtualAddress,
};
use crate::report::{parse_address_text, FrameRow};
use crate::screens::{frame_names_module, frame_names_module_exec};
use crate::text::views;
use minidump::system_info::{Cpu, Os, PointerWidth};
use minidump::Module;
use crate::text::{
    chars_of, contains, contains_exec, dec, hex_pad, lower, lower_of, power, push_char, push_dec,
    push_hex_pad, push_str, starts_with, starts_with_exec, string_from,
};
use vstd::prelude::*;

verus! {

broadcast use vstd::string::group_string_axioms;

// ---------------------------------------------------------------------------
// Module ownership
// ---------------------------------------------------------------------------

/// A module path belongs to the operating system when, in ASCII lower case,
/// it starts with `/system/` or `/usr/lib/`, or contains `\windows\system32\`.
pub open spec fn system_path(name: Seq<char>) -> bool {
    let l = lower(name);
    starts_with(l, "/system/"@) || contains(l, "\\windows\\system32\\"@) || starts_with(
        l,
        "/usr/lib/"@,
    )
}

/// The ownership class of a module, by its path.
pub fn classify_module(name: &str) -> (o: ModuleOwnership)
    ensures
        o == (if system_path(name@) {
            ModuleOwnership::System
        } else {
            ModuleOwnership::ApplicationOrThirdParty
        }),
{
    let l = lower_of(name);
    if starts_with_exec(&l, &chars_of("/system/")) || contains_exec(
        &l,
        &chars_of("\\windows\\system32\\"),
    ) || starts_with_exec(&l, &chars_of("/usr/lib/")) {
        ModuleOwnership::System
    } else {
        ModuleOwnership::ApplicationOrThirdParty
    }
}

// ---------------------------------------------------------------------------
// Hex preview of captured bytes
// ---------------------------------------------------------------------------

/// A printable ASCII character other than space.
pub open spec fn is_graphic(b: u8) -> bool {
    0x21 <= b <= 0x7e
}

/// The first `k` of the sixteen byte cells of a line: two hex digits and a
/// space for each byte present, three spaces past the end of the chunk.
pub open spec fn hex_cells(chunk: Seq<u8>, k: nat) -> Seq<char>
    decreases k,
{
    if k == 0 {
        Seq::empty()
    } else {
        hex_cells(chunk, (k - 1) as nat) + (if k - 1 < chunk.len() {
            hex_pad(chunk[k - 1] as nat, 2) + seq![' ']
        } else {
            "   "@
        })
    }
}

/// Each byte as itself when it is printable, as `.` otherwise.
pub open spec fn ascii_column(chunk: Seq<u8>) -> Seq<char> {
    chunk.map_values(|b: u8| if is_graphic(b) { b as char } else { '.' })
}

/// One preview line: the address in sixteen hex digits, the byte cells and
/// the printable column.
pub open spec fn preview_line(chunk: Seq<u8>, address: nat) -> Seq<char> {
    hex_pad(address, 16) + "  "@ + hex_cells(chunk, 16) + seq![' '] + ascii_column(chunk)
}

/// The bytes shown on line `line` (sixteen per line).
pub open spec fn preview_chunk(bytes: Seq<u8>, line: nat) -> Seq<u8> {
    let start: int = 16 * line as int;
    let end: int = if start + 16 <= bytes.len() {
        start + 16
    } else {
        bytes.len() as int
    };
    bytes.subrange(start, end)
}

/// The number of preview lines: one per sixteen bytes, at most eight.
pub open spec fn preview_line_count(len: nat) -> nat {
    let lines = (len + 15) / 16;
    if lines > 8 {
        8
    } else {
        lines as nat
    }
}

/// The first `k` preview lines, separated by newlines; line `i` starts at
/// `base + 16 i`, wrapping at 2^64.
pub open spec fn preview_lines(bytes: Seq<u8>, base: u64, k: nat) -> Seq<char>
    decreases k,
{
    if k == 0 {
        Seq::empty()
    } else {
        preview_lines(bytes, base, (k - 1) as nat) + (if k > 1 {
            seq!['\n']
        } else {
            Seq::empty()
        }) + preview_line(
            preview_chunk(bytes, (k - 1) as nat),
            ((base + 16 * (k - 1)) % 0x1_0000_0000_0000_0000) as nat,
        )
    }
}

/// A bounded hex dump of captured bytes: at most eight lines of sixteen
/// bytes; the full bytes stay in the memory row.
pub open spec fn hex_preview_of(bytes: Seq<u8>, base: u64) -> Seq<char> {
    preview_lines(bytes, base, preview_line_count(bytes.len()))
}

fn push_preview_line(out: &mut String, bytes: &[u8], from: usize, to: usize, address: u64)
    requires
        from <= to <= bytes@.len(),
        to - from <= 16,
    ensures
        final(out)@ == old(out)@ + preview_line(bytes@.subrange(from as int, to as int), address as nat),
{
    let ghost chunk = bytes@.subrange(from as int, to as int);
    let ghost start = out@;
    push_hex_pad(out, address, 16);
    push_str(out, "  ");
    let ghost cells_start = out@;
    let mut index: usize = 0;
    while index < 16
        invariant
            from <= to <= bytes@.len(),
            to - from <= 16,
            chunk == bytes@.subrange(from as int, to as int),
            index <= 16,
            out@ == cells_start + hex_cells(chunk, index as nat),
        decreases 16 - index,
    {
        if index < to - from {
            push_hex_pad(out, bytes[from + index] as u64, 2);
            push_char(out, ' ');
        } else {
            push_str(out, "   ");
        }
        index = index + 1;
        assert(out@ =~= cells_start + hex_cells(chunk, index as nat));
    }
    push_char(out, ' ');
    let ghost ascii_start = out@;
    let mut k: usize = from;
    while k < to
        invariant
            from <= k <= to <= bytes@.len(),
            chunk == bytes@.subrange(from as int, to as int),
            out@ == ascii_start + ascii_column(chunk.take(k - from)),
        decreases to - k,
    {
        let b = bytes[k];
        let c = if 0x21 <= b && b <= 0x7e {
            b as char
        } else {
            '.'
        };
        push_char(out, c);
        k = k + 1;
        assert(chunk.take(k - from) =~= chunk.take(k - 1 - from).push(b));
        assert(out@ =~= ascii_start + ascii_column(chunk.take(k - from)));
    }
    assert(chunk.take(to - from) =~= chunk);
    assert(out@ =~= start + preview_line(chunk, address as nat));
}

/// A hex dump of the first 128 captured bytes: for each line of sixteen, the
/// address, the bytes in hex and their printable characters.
#[verifier::spinoff_prover]
#[verifier::rlimit(40)]
pub fn hex_preview(bytes: &[u8], base: u64) -> (s: String)
    ensures
        s@ == hex_preview_of(bytes@, base),
{
    let n = bytes.len();
    let lines: usize = if n / 16 + (if n % 16 > 0 { 1usize } else { 0usize }) > 8 {
        8
    } else {
        n / 16 + (if n % 16 > 0 { 1usize } else { 0usize })
    };
    assert(lines == preview_line_count(n as nat));
    let mut output = String::new();
    let mut line: usize = 0;
    let mut address: u64 = base;
    while line < lines
        invariant
            n == bytes@.len(),
            lines == preview_line_count(n as nat),
            lines <= 8,
            line <= lines,
            address == (base + 16 * line) % 0x1_0000_0000_0000_0000,
            output@ == preview_lines(bytes@, base, line as nat),
        decreases lines - line,
    {
        if line > 0 {
            push_char(&mut output, '\n');
        }
        let from = 16 * line;
        let to = if from + 16 <= n {
            from + 16
        } else {
            n
        };
        assert(from <= n) by {
            assert(line < preview_line_count(n as nat));
        }
        push_preview_line(&mut output, bytes, from, to, address);
        proof {
            assert(bytes@.subrange(from as int, to as int) == preview_chunk(bytes@, line as nat));
        }
        line = line + 1;
        address = address.wrapping_add(16);
        assert(address == (base + 16 * line) % 0x1_0000_0000_0000_0000);
    }
    output
}

// ---------------------------------------------------------------------------
// File sizes
// ---------------------------------------------------------------------------

/// How many times `v` is halved before it drops below 2^53.
pub open spec fn f64_halvings(v: nat) -> nat
    decreases v,
{
    if v < 0x20_0000_0000_0000 {
        0
    } else {
        1 + f64_halvings(v / 2)
    }
}

/// `num / den` rounded to the nearest integer, a tie to the even one.
pub open spec fn round_half_even(num: nat, den: nat) -> nat {
    let q = num / den;
    let r = num % den;
    if 2 * r > den || (2 * r == den && q % 2 == 1) {
        q + 1
    } else {
        q
    }
}

/// The value of `v as f64`: `v` rounded to 53 significant bits, a tie to the
/// even one.
pub open spec fn as_f64_value(v: nat) -> nat {
    let s = power(2, f64_halvings(v));
    round_half_even(v, s) * s
}

/// The unit that `human_bytes` shows `f` in: divide by 1024 while the value
/// is at least 1024, up to terabytes.
pub open spec fn size_unit(f: nat, u: nat) -> nat
    decreases 4 - u,
{
    if u < 4 && f >= power(1024, u + 1) {
        size_unit(f, u + 1)
    } else {
        u
    }
}

pub open spec fn unit_name(u: nat) -> Seq<char> {
    if u == 0 {
        "B"@
    } else if u == 1 {
        "KB"@
    } else if u == 2 {
        "MB"@
    } else if u == 3 {
        "GB"@
    } else {
        "TB"@
    }
}

/// A byte count for people: plain bytes below 1 KB, otherwise the value in
/// the largest unit up to TB that keeps it at least 1, with one decimal
/// rounded half to even, computed as the floating-point value of the count.
pub open spec fn human_bytes_of(value: nat) -> Seq<char> {
    let f = as_f64_value(value);
    let u = size_unit(f, 0);
    if u == 0 {
        dec(value) + " B"@
    } else {
        let t = round_half_even(10 * f, power(1024, u));
        dec(t / 10) + "."@ + dec(t % 10) + " "@ + unit_name(u)
    }
}

proof fn lemma_power_positive(b: nat, k: nat)
    requires
        b > 0,
    ensures
        power(b, k) > 0,
    decreases k,
{
    if k > 0 {
        lemma_power_positive(b, (k - 1) as nat);
        assert(b * power(b, (k - 1) as nat) > 0) by (nonlinear_arith)
            requires
                b > 0,
                power(b, (k - 1) as nat) > 0,
        ;
    }
}

proof fn lemma_power_1024()
    ensures
        power(1024, 1) == 0x400,
        power(1024, 2) == 0x10_0000,
        power(1024, 3) == 0x4000_0000,
        power(1024, 4) == 0x100_0000_0000,
{
    reveal_with_fuel(power, 5);
}

proof fn lemma_power2_values()
    ensures
        power(2, 11) == 0x800,
{
    reveal_with_fuel(power, 12);
}

proof fn lemma_power2_monotone(a: nat, b: nat)
    requires
        a <= b,
    ensures
        power(2, a) <= power(2, b),
    decreases b,
{
    if a < b {
        lemma_power2_monotone(a, (b - 1) as nat);
        lemma_power_positive(2, (b - 1) as nat);
    }
}

/// `round_half_even(num, den)` computed on machine integers.
fn round_half_even_exec(num: u128, den: u128) -> (r: u128)
    requires
        den > 0,
        num / den + 1 <= u128::MAX,
    ensures
        r == round_half_even(num as nat, den as nat),
{
    let q = num / den;
    let r = num % den;
    assert(r < den);
    if r > den - r || (r == den - r && q % 2 == 1) {
        q + 1
    } else {
        q
    }
}

/// The value of `v as f64`, as an integer.
fn f64_value(v: u64) -> (f: u128)
    ensures
        f == as_f64_value(v as nat),
        f <= 0x1_0000_0000_0000_0000,
{
    let mut t: u64 = v;
    let mut s: u64 = 1;
    let mut e: u64 = 0;
    assert(power(2, 0) == 1) by {
        reveal_with_fuel(power, 1);
    }
    proof {
        lemma_power2_values();
    }
    while t >= 0x20_0000_0000_0000
        invariant
            s == power(2, e as nat),
            s > 0,
            t == v / s,
            f64_halvings(v as nat) == e + f64_halvings(t as nat),
            e <= 11,
            s <= 0x800,
            power(2, 11) == 0x800,
        decreases t,
    {
        proof {
            vstd::arithmetic::div_mod::lemma_div_denominator(v as int, s as int, 2);
            vstd::arithmetic::div_mod::lemma_fundamental_div_mod(v as int, s as int);
            assert(power(2, (e + 1) as nat) == 2 * power(2, e as nat));
            assert(s * t <= v) by (nonlinear_arith)
                requires
                    s > 0,
                    t == v / s,
            ;
            assert(s < 0x800) by (nonlinear_arith)
                requires
                    s * t <= v,
                    t >= 0x20_0000_0000_0000,
                    v < 0x1_0000_0000_0000_0000,
            ;
            if e >= 11 {
                lemma_power2_monotone(11, e as nat);
            }
            lemma_power2_monotone((e + 1) as nat, 11);
        }
        t = t / 2;
        s = s * 2;
        e = e + 1;
    }
    proof {
        vstd::arithmetic::div_mod::lemma_fundamental_div_mod(v as int, s as int);
    }
    let q = round_half_even_exec(v as u128, s as u128);
    assert((v as u128) / (s as u128) == t);
    assert(q <= 0x20_0000_0000_0000);
    assert(q * (s as u128) <= 0x1_0000_0000_0000_0000) by (nonlinear_arith)
        requires
            q <= 0x20_0000_0000_0000,
            s <= 0x800,
            q <= t + 1,
            t == v / s,
            s > 0,
            v < 0x1_0000_0000_0000_0000,
    ;
    q * (s as u128)
}

/// A byte count in B, KB, MB, GB or TB, with one decimal above bytes.
pub fn human_bytes(value: u64) -> (s: String)
    ensures
        s@ == human_bytes_of(value as nat),
{
    let f = f64_value(value);
    proof {
        lemma_power_1024();
    }
    let mut unit: u64 = 0;
    let mut scale: u128 = 1;
    assert(power(1024, 0) == 1) by {
        reveal_with_fuel(power, 1);
    }
    while unit < 4 && f >= scale * 1024
        invariant
            unit <= 4,
            scale == power(1024, unit as nat),
            scale <= 0x100_0000_0000,
            size_unit(f as nat, 0) == size_unit(f as nat, unit as nat),
        decreases 4 - unit,
    {
        assert(power(1024, (unit + 1) as nat) == 1024 * power(1024, unit as nat));
        assert(scale <= 0x4000_0000) by {
            lemma_power_1024();
            reveal_with_fuel(power, 1);
            if unit == 0 {
            } else if unit == 1 {
            } else if unit == 2 {
            } else {
                assert(unit == 3);
            }
        }
        scale = scale * 1024;
        unit = unit + 1;
    }
    if unit == 0 {
        let mut s = crate::text::dec_string(value);
        push_str(&mut s, " B");
        return s;
    }
    let t = round_half_even_exec(10 * f, scale);
    let mut s = String::new();
    push_dec(&mut s, (t / 10) as u64);
    push_str(&mut s, ".");
    push_dec(&mut s, (t % 10) as u64);
    push_str(&mut s, " ");
    push_str(
        &mut s,
        if unit == 1 {
            "KB"
        } else if unit == 2 {
            "MB"
        } else if unit == 3 {
            "GB"
        } else {
            "TB"
        },
    );
    s
}

// ---------------------------------------------------------------------------
// What the dump holds
// ---------------------------------------------------------------------------

/// The system information stream: processor and platform.
#[derive(Clone, Copy, Debug, PartialEq, Eq, Structural)]
pub struct SystemFacts {
    pub architecture: CpuArchitecture,
    pub pointer_size: Option<PointerSize>,
    pub operating_system: OperatingSystem,
}

/// The exception stream: the thread that crashed and, when the system
/// information is known, the crash reason and address.
#[derive(Clone, Debug)]
pub struct CrashFacts {
    pub thread_id: u32,
    pub detail: Option<(String, u64)>,
}

/// One thread of the thread list.
#[derive(Clone, Copy, Debug, PartialEq, Eq, Structural)]
pub struct ThreadFacts {
    pub id: u32,
    pub stack_start: u64,
    pub stack_size: u64,
}

/// One module of the module list.
#[derive(Clone, Debug)]
pub struct ModuleFacts {
    pub code_file: String,
    pub base: u64,
    pub size: u64,
    pub code_id: Option<String>,
}

/// What the memory information list records of a region.
#[derive(Clone, Debug)]
pub struct RegionInfo {
    pub readable: bool,
    pub writable: bool,
    pub executable: bool,
    pub kind: String,
    pub state: String,
}

/// One region of the memory list, with its recorded information.
#[derive(Clone, Debug)]
pub struct RegionFacts {
    pub base: u64,
    pub size: u64,
    pub bytes: Vec<u8>,
    pub info: Option<RegionInfo>,
}

/// One entry of the stream directory.
#[derive(Clone, Copy, Debug, PartialEq, Eq, Structural)]
pub struct StreamFacts {
    pub stream_type: u32,
    pub size: u32,
    pub rva: u32,
}

/// Everything the report is built from; a stream that the dump lacks is
/// `None`.
#[derive(Clone, Debug)]
pub struct DumpFacts {
    pub endian: String,
    pub system: Option<SystemFacts>,
    pub crash: Option<CrashFacts>,
    pub threads: Option<Vec<ThreadFacts>>,
    pub modules: Option<Vec<ModuleFacts>>,
    pub memory: Option<Vec<RegionFacts>>,
    pub streams: Vec<StreamFacts>,
}

pub struct CrashView {
    pub thread_id: u32,
    pub detail: Option<(Seq<char>, u64)>,
}

pub struct ModuleFactsView {
    pub code_file: Seq<char>,
    pub base: u64,
    pub size: u64,
    pub code_id: Option<Seq<char>>,
}

pub struct RegionInfoView {
    pub readable: bool,
    pub writable: bool,
    pub executable: bool,
    pub kind: Seq<char>,
    pub state: Seq<char>,
}

pub struct RegionView {
    pub base: u64,
    pub size: u64,
    pub bytes: Seq<u8>,
    pub info: Option<RegionInfoView>,
}

pub struct FactsView {
    pub endian: Seq<char>,
    pub system: Option<SystemFacts>,
    pub crash: Option<CrashView>,
    pub threads: Option<Seq<ThreadFacts>>,
    pub modules: Option<Seq<ModuleFactsView>>,
    pub memory: Option<Seq<RegionView>>,
    pub streams: Seq<StreamFacts>,
}

impl View for CrashFacts {
    type V = CrashView;

    open spec fn view(&self) -> CrashView {
        CrashView {
            thread_id: self.thread_id,
            detail: match self.detail {
                Some((reason, address)) => Some((reason@, address)),
                None => None,
            },
        }
    }
}

impl View for ModuleFacts {
    type V = ModuleFactsView;

    open spec fn view(&self) -> ModuleFactsView {
        ModuleFactsView {
            code_file: self.code_file@,
            base: self.base,
            size: self.size,
            code_id: match self.code_id {
                Some(c) => Some(c@),
                None => None,
            },
        }
    }
}

impl View for RegionInfo {
    type V = RegionInfoView;

    open spec fn view(&self) -> RegionInfoView {
        RegionInfoView {
            readable: self.readable,
            writable: self.writable,
            executable: self.executable,
            kind: self.kind@,
            state: self.state@,
        }
    }
}

impl View for RegionFacts {
    type V = RegionView;

    open spec fn view(&self) -> RegionView {
        RegionView {
            base: self.base,
            size: self.size,
            bytes: self.bytes@,
            info: match self.info {
                Some(i) => Some(i@),
                None => None,
            },
        }
    }
}

pub open spec fn module_facts_views(v: Seq<ModuleFacts>) -> Seq<ModuleFactsView> {
    v.map_values(|m: ModuleFacts| m@)
}

pub open spec fn region_views(v: Seq<RegionFacts>) -> Seq<RegionView> {
    v.map_values(|r: RegionFacts| r@)
}

impl View for DumpFacts {
    type V = FactsView;

    open spec fn view(&self) -> FactsView {
        FactsView {
            endian: self.endian@,
            system: self.system,
            crash: match self.crash {
                Some(c) => Some(c@),
                None => None,
            },
            threads: match self.threads {
                Some(t) => Some(t@),
                None => None,
            },
            modules: match self.modules {
                Some(m) => Some(module_facts_views(m@)),
                None => None,
            },
            memory: match self.memory {
                Some(r) => Some(region_views(r@)),
                None => None,
            },
            streams: self.streams@,
        }
    }
}

// ---------------------------------------------------------------------------
// Reading the dump
// ---------------------------------------------------------------------------

/// `Minidump::read` accepts the bytes.
pub uninterp spec fn minidump_parses(bytes: Seq<u8>) -> bool;

/// The `Debug` text of the dump's byte order.
pub uninterp spec fn minidump_endian(bytes: Seq<u8>) -> Seq<char>;

/// The processor architecture and platform codes of the system information
/// stream, when it can be read.
pub uninterp spec fn minidump_system_codes(bytes: Seq<u8>) -> Option<(u16, u32)>;

/// The architecture that minidump gives a processor architecture code
/// (`Cpu::from_processor_architecture`): the Windows codes and Breakpad's
/// extensions, with the 32-bit-on-64-bit and old ARM64 codes folded into x86
/// and ARM64, and every other code unknown.
pub open spec fn minidump_architecture(code: u16) -> CpuArchitecture {
    if code == 0 || code == 10 {
        CpuArchitecture::X86
    } else if code == 9 {
        CpuArchitecture::X86_64
    } else if code == 3 {
        CpuArchitecture::Ppc
    } else if code == 0x8002 {
        CpuArchitecture::Ppc64
    } else if code == 0x8001 {
        CpuArchitecture::Sparc
    } else if code == 5 {
        CpuArchitecture::Arm
    } else if code == 12 || code == 0x8003 {
        CpuArchitecture::Arm64
    } else if code == 1 {
        CpuArchitecture::Mips
    } else if code == 0x8004 {
        CpuArchitecture::Mips64
    } else {
        CpuArchitecture::Unknown
    }
}

/// The native pointer size of an architecture (`Cpu::pointer_width`): four
/// bytes for the 32-bit processors, eight for their 64-bit forms, and none
/// for an unknown processor.
pub open spec fn pointer_size_of(arch: CpuArchitecture) -> Option<PointerSize> {
    match arch {
        CpuArchitecture::X86 | CpuArchitecture::Ppc | CpuArchitecture::Sparc | CpuArchitecture::Arm
        | CpuArchitecture::Mips => Some(PointerSize::Bytes4),
        CpuArchitecture::X86_64 | CpuArchitecture::Ppc64 | CpuArchitecture::Arm64
        | CpuArchitecture::Mips64 => Some(PointerSize::Bytes8),
        CpuArchitecture::Unknown => None,
    }
}

/// The operating system that minidump gives a platform code
/// (`Os::from_platform_id`): both Windows codes, Breakpad's platform
/// extensions, and every other code unknown.
pub open spec fn minidump_operating_system(code: u32) -> OperatingSystem {
    if code == 2 || code == 3 {
        OperatingSystem::Windows
    } else if code == 0x8101 {
        OperatingSystem::MacOs
    } else if code == 0x8102 {
        OperatingSystem::Ios
    } else if code == 0x8201 {
        OperatingSystem::Linux
    } else if code == 0x8202 {
        OperatingSystem::Solaris
    } else if code == 0x8203 {
        OperatingSystem::Android
    } else if code == 0x8204 {
        OperatingSystem::Ps3
    } else if code == 0x8205 {
        OperatingSystem::NaCl
    } else {
        OperatingSystem::Unknown
    }
}

/// The crashing thread of the exception stream and, when the system
/// information can be read, the crash reason text and crash address.
pub uninterp spec fn minidump_crash(bytes: Seq<u8>) -> Option<(u32, Option<(Seq<char>, u64)>)>;

/// The thread list: each thread's id, stack start and stack size.
pub uninterp spec fn minidump_threads(bytes: Seq<u8>) -> Option<Seq<ThreadFacts>>;

/// The module list: each module's code file, base, size and code identifier.
pub uninterp spec fn minidump_modules(bytes: Seq<u8>) -> Option<Seq<ModuleFactsView>>;

/// The memory list: each region's base, size and captured bytes.
pub uninterp spec fn minidump_memory(bytes: Seq<u8>) -> Option<Seq<(u64, u64, Seq<u8>)>>;

/// What the memory information list records of the region at `address`.
pub uninterp spec fn minidump_memory_info(bytes: Seq<u8>, address: u64) -> Option<RegionInfoView>;

/// The stream directory: each stream's type, size and offset.
pub uninterp spec fn minidump_streams(bytes: Seq<u8>) -> Seq<StreamFacts>;

/// `Minidump::read`: whether the bytes are a minidump.
#[verifier::external_body]
fn dump_parses(bytes: &[u8]) -> (r: bool)
    ensures
        r == minidump_parses(bytes@),
{
    minidump::Minidump::read(bytes).is_ok()
}

/// `Minidump::endian`, in its `Debug` form.
#[verifier::external_body]
fn dump_endian(bytes: &[u8]) -> (r: String)
    requires
        minidump_parses(bytes@),
    ensures
        r@ == minidump_endian(bytes@),
        r@ == "Little"@ || r@ == "Big"@,
{
    match minidump::Minidump::read(bytes) {
        Ok(dump) => format!("{:?}", dump.endian),
        Err(_) => String::new(),
    }
}

/// `Minidump::get_stream::<MinidumpSystemInfo>`: the raw processor
/// architecture and platform codes.
#[verifier::external_body]
fn dump_system_codes(bytes: &[u8]) -> (r: Option<(u16, u32)>)
    ensures
        r == minidump_system_codes(bytes@),
{
    let dump = minidump::Minidump::read(bytes).ok()?;
    let info = dump.get_stream::<minidump::MinidumpSystemInfo>().ok()?;
    Some((info.raw.processor_architecture, info.raw.platform_id))
}

/// `Cpu::from_processor_architecture`, variant for variant.
#[verifier::external_body]
fn cpu_architecture(code: u16) -> (r: CpuArchitecture)
    ensures
        r == minidump_architecture(code),
{
    match Cpu::from_processor_architecture(code) {
        Cpu::X86 => CpuArchitecture::X86,
        Cpu::X86_64 => CpuArchitecture::X86_64,
        Cpu::Ppc => CpuArchitecture::Ppc,
        Cpu::Ppc64 => CpuArchitecture::Ppc64,
        Cpu::Sparc => CpuArchitecture::Sparc,
        Cpu::Arm => CpuArchitecture::Arm,
        Cpu::Arm64 => CpuArchitecture::Arm64,
        Cpu::Mips => CpuArchitecture::Mips,
        Cpu::Mips64 => CpuArchitecture::Mips64,
        _ => CpuArchitecture::Unknown,
    }
}

/// `Cpu::pointer_width` of `Cpu::from_processor_architecture`: the width
/// follows the processor, as `pointer_size_of` gives it for the architecture
/// that `cpu_architecture` reports for the same code.
#[verifier::external_body]
fn cpu_pointer_size(code: u16) -> (r: Option<PointerSize>)
    ensures
        r == pointer_size_of(minidump_architecture(code)),
{
    match Cpu::from_processor_architecture(code).pointer_width() {
        PointerWidth::Bits32 => Some(PointerSize::Bytes4),
        PointerWidth::Bits64 => Some(PointerSize::Bytes8),
        PointerWidth::Unknown => None,
    }
}

/// `Os::from_platform_id`, variant for variant.
#[verifier::external_body]
fn platform_operating_system(code: u32) -> (r: OperatingSystem)
    ensures
        r == minidump_operating_system(code),
{
    match Os::from_platform_id(code) {
        Os::Windows => OperatingSystem::Windows,
        Os::MacOs => OperatingSystem::MacOs,
        Os::Ios => OperatingSystem::Ios,
        Os::Linux => OperatingSystem::Linux,
        Os::Solaris => OperatingSystem::Solaris,
        Os::Android => OperatingSystem::Android,
        Os::Ps3 => OperatingSystem::Ps3,
        Os::NaCl => OperatingSystem::NaCl,
        Os::Unknown(_) => OperatingSystem::Unknown,
    }
}

/// `Minidump::get_stream::<MinidumpException>`: the crashing thread, and the
/// crash reason (its `Display` text) and address for the system's platform
/// and processor when the system information can be read.
#[verifier::external_body]
fn dump_crash(bytes: &[u8]) -> (r: Option<CrashFacts>)
    ensures
        match r {
            Some(c) => minidump_crash(bytes@) == Some((c@.thread_id, c@.detail)),
            None => minidump_crash(bytes@) is None,
        },
{
    let dump = minidump::Minidump::read(bytes).ok()?;
    let exception = dump.get_stream::<minidump::MinidumpException>().ok()?;
    let info = dump.get_stream::<minidump::MinidumpSystemInfo>().ok();
    let detail = info.map(|i| {
        (exception.get_crash_reason(i.os, i.cpu).to_string(), exception.get_crash_address(i.os, i.cpu))
    });
    Some(CrashFacts { thread_id: exception.get_crashing_thread_id(), detail })
}

/// `Minidump::get_stream::<MinidumpThreadList>`: each thread's id, stack
/// start and stack size.
#[verifier::external_body]
fn dump_threads(bytes: &[u8]) -> (r: Option<Vec<ThreadFacts>>)
    ensures
        match r {
            Some(t) => minidump_threads(bytes@) == Some(t@),
            None => minidump_threads(bytes@) is None,
        },
{
    let dump = minidump::Minidump::read(bytes).ok()?;
    let list = dump.get_stream::<minidump::MinidumpThreadList>().ok()?;
    Some(list.threads.iter().map(|t| ThreadFacts {
        id: t.raw.thread_id,
        stack_start: t.raw.stack.start_of_memory_range,
        stack_size: t.raw.stack.memory.data_size as u64,
    }).collect())
}

/// `Minidump::get_stream::<MinidumpModuleList>`: each module's code file,
/// base, size and code identifier (its `Display` text).
#[verifier::external_body]
fn dump_modules(bytes: &[u8]) -> (r: Option<Vec<ModuleFacts>>)
    ensures
        match r {
            Some(m) => minidump_modules(bytes@) == Some(module_facts_views(m@)),
            None => minidump_modules(bytes@) is None,
        },
{
    let dump = minidump::Minidump::read(bytes).ok()?;
    let list = dump.get_stream::<minidump::MinidumpModuleList>().ok()?;
    Some(list.iter().map(|m| ModuleFacts {
        code_file: m.code_file().to_string(),
        base: m.raw.base_of_image,
        size: m.raw.size_of_image as u64,
        code_id: m.code_identifier().map(|id| id.to_string()),
    }).collect())
}

/// `Minidump::get_stream::<MinidumpMemoryList>`: each region's base, size
/// and captured bytes.
#[verifier::external_body]
fn dump_memory(bytes: &[u8]) -> (r: Option<Vec<(u64, u64, Vec<u8>)>>)
    ensures
        match r {
            Some(m) => minidump_memory(bytes@) == Some(
                m@.map_values(|e: (u64, u64, Vec<u8>)| (e.0, e.1, e.2@)),
            ),
            None => minidump_memory(bytes@) is None,
        },
{
    let dump = minidump::Minidump::read(bytes).ok()?;
    let list = dump.get_stream::<minidump::MinidumpMemoryList>().ok()?;
    Some(list.iter().map(|m| (m.base_address, m.size, m.bytes.to_vec())).collect())
}

/// `MinidumpMemoryInfoList::memory_info_at_address`: the access flags and the
/// `Debug` texts of the type and state recorded for the region at `address`.
#[verifier::external_body]
fn dump_memory_info(bytes: &[u8], address: u64) -> (r: Option<RegionInfo>)
    ensures
        match r {
            Some(i) => minidump_memory_info(bytes@, address) == Some(i@),
            None => minidump_memory_info(bytes@, address) is None,
        },
{
    let dump = minidump::Minidump::read(bytes).ok()?;
    let list = dump.get_stream::<minidump::MinidumpMemoryInfoList>().ok()?;
    let info = list.memory_info_at_address(address)?;
    Some(RegionInfo {
        readable: info.is_readable(),
        writable: info.is_writable(),
        executable: info.is_executable(),
        kind: format!("{:?}", info.ty),
        state: format!("{:?}", info.state),
    })
}

/// `Minidump::all_streams`: each stream's type, size and offset.
#[verifier::external_body]
fn dump_streams(bytes: &[u8]) -> (r: Vec<StreamFacts>)
    ensures
        r@ == minidump_streams(bytes@),
{
    let Ok(dump) = minidump::Minidump::read(bytes) else {
        return Vec::new();
    };
    dump.all_streams().map(|e| StreamFacts {
        stream_type: e.stream_type,
        size: e.location.data_size,
        rva: e.location.rva,
    }).collect()
}

/// The system facts for raw processor and platform codes.
pub open spec fn system_from_codes(codes: Option<(u16, u32)>) -> Option<SystemFacts> {
    match codes {
        Some((cpu, platform)) => Some(
            SystemFacts {
                architecture: minidump_architecture(cpu),
                pointer_size: pointer_size_of(minidump_architecture(cpu)),
                operating_system: minidump_operating_system(platform),
            },
        ),
        None => None,
    }
}

/// The regions of the memory list, each with what the memory information
/// list records at its base.
pub open spec fn regions_of(bytes: Seq<u8>, regions: Seq<(u64, u64, Seq<u8>)>) -> Seq<RegionView> {
    regions.map_values(
        |r: (u64, u64, Seq<u8>)|
            RegionView {
                base: r.0,
                size: r.1,
                bytes: r.2,
                info: minidump_memory_info(bytes, r.0),
            },
    )
}

/// Everything that the dump's bytes give the report.
pub open spec fn facts_of(bytes: Seq<u8>) -> FactsView {
    FactsView {
        endian: minidump_endian(bytes),
        system: system_from_codes(minidump_system_codes(bytes)),
        crash: match minidump_crash(bytes) {
            Some((thread_id, detail)) => Some(CrashView { thread_id, detail }),
            None => None,
        },
        threads: minidump_threads(bytes),
        modules: minidump_modules(bytes),
        memory: match minidump_memory(bytes) {
            Some(regions) => Some(regions_of(bytes, regions)),
            None => None,
        },
        streams: minidump_streams(bytes),
    }
}

/// The system facts for raw processor and platform codes.
pub fn system_facts(cpu: u16, platform: u32) -> (s: SystemFacts)
    ensures
        Some(s) == system_from_codes(Some((cpu, platform))),
        s.pointer_size == pointer_size_of(s.architecture),
{
    SystemFacts {
        architecture: cpu_architecture(cpu),
        pointer_size: cpu_pointer_size(cpu),
        operating_system: platform_operating_system(platform),
    }
}

/// Reads what the report needs from a parsed dump.
pub fn read_dump_facts(bytes: &[u8]) -> (f: DumpFacts)
    requires
        minidump_parses(bytes@),
    ensures
        f@ == facts_of(bytes@),
{
    let endian = dump_endian(bytes);
    let system = match dump_system_codes(bytes) {
        Some((cpu, platform)) => Some(system_facts(cpu, platform)),
        None => None,
    };
    let crash = dump_crash(bytes);
    let threads = dump_threads(bytes);
    let modules = dump_modules(bytes);
    let memory = match dump_memory(bytes) {
        Some(regions) => {
            let ghost rv = regions@.map_values(|e: (u64, u64, Vec<u8>)| (e.0, e.1, e.2@));
            let mut out: Vec<RegionFacts> = Vec::new();
            let n = regions.len();
            let mut i: usize = 0;
            while i < n
                invariant
                    n == regions@.len(),
                    i <= n,
                    rv == regions@.map_values(|e: (u64, u64, Vec<u8>)| (e.0, e.1, e.2@)),
                    region_views(out@) == regions_of(bytes@, rv.take(i as int)),
                decreases n - i,
            {
                let (base, size, data) = &regions[i];
                let info = dump_memory_info(bytes, *base);
                let ghost before = region_views(out@);
                let copy = data.clone();
                assert(copy@ =~= data@);
                assert(rv[i as int] == (*base, *size, data@));
                out.push(RegionFacts { base: *base, size: *size, bytes: copy, info });
                i = i + 1;
                assert(rv.take(i as int) =~= rv.take(i - 1).push(rv[i - 1]));
                assert(region_views(out@) =~= before.push(
                    RegionView {
                        base: *base,
                        size: *size,
                        bytes: data@,
                        info: minidump_memory_info(bytes@, *base),
                    },
                ));
                assert(region_views(out@) =~= regions_of(bytes@, rv.take(i as int)));
            }
            assert(rv.take(n as int) =~= rv);
            Some(out)
        },
        None => None,
    };
    let streams = dump_streams(bytes);
    let f = DumpFacts { endian, system, crash, threads, modules, memory, streams };
    assert(f@.memory == facts_of(bytes@).memory);
    assert(f@.crash == facts_of(bytes@).crash);
    f
}

// ---------------------------------------------------------------------------
// Building the report
// ---------------------------------------------------------------------------

/// Why a file could not be analysed.
#[derive(Clone, Copy, Debug, PartialEq, Eq, Structural)]
pub enum AnalysisError {
    /// The bytes are not a minidump.
    NotMinidump,
}

impl AnalysisError {
    /// What the error says of the dump at `path`.
    pub fn message(&self, path: &str) -> (s: String)
        ensures
            s@ == "Could not parse "@ + path@ + " as a minidump"@,
    {
        match self {
            AnalysisError::NotMinidump => {
                let mut s = string_from("Could not parse ");
                push_str(&mut s, path);
                push_str(&mut s, " as a minidump");
                s
            },
        }
    }
}

pub open spec fn crash_thread_of(f: FactsView) -> Option<u32> {
    match f.crash {
        Some(c) => Some(c.thread_id),
        None => None,
    }
}

/// The crash reason; "No exception stream" without an exception stream or
/// without the system information that the reason depends on.
pub open spec fn crash_reason_of(f: FactsView) -> Seq<char> {
    match f.crash {
        Some(c) => match c.detail {
            Some((reason, _)) => reason,
            None => "No exception stream"@,
        },
        None => "No exception stream"@,
    }
}

pub open spec fn crash_address_of(f: FactsView) -> Option<u64> {
    match f.crash {
        Some(c) => match c.detail {
            Some((_, address)) => Some(address),
            None => None,
        },
        None => None,
    }
}

/// The problems found while reading the dump, in this order: pointer
/// decoding unavailable for the architecture (or the system information
/// missing), no exception stream, no thread list, no module list.
pub open spec fn diagnostics_of(f: FactsView) -> Seq<Seq<char>> {
    (match f.system {
        Some(s) => if s.pointer_size is None {
            seq!["Pointer decoding is unavailable for architecture "@ + architecture_text(s.architecture)]
        } else {
            Seq::empty()
        },
        None => seq!["System information stream is missing"@],
    }) + (if f.crash is None {
        seq!["No exception stream; this may be a manually captured dump"@]
    } else {
        Seq::empty()
    }) + (if f.threads is None {
        seq!["Thread list stream is missing"@]
    } else {
        Seq::empty()
    }) + (if f.modules is None {
        seq!["Module list stream is missing"@]
    } else {
        Seq::empty()
    })
}

/// A thread row as read: no name and no frames yet, crashed when its id is
/// the exception's thread.
pub open spec fn thread_row_built(row: ThreadRow, t: ThreadFacts, crash_thread: Option<u32>) -> bool {
    &&& row.id == t.id
    &&& row.name@ == Seq::<char>::empty()
    &&& row.stack_start@ == Some(t.stack_start)
    &&& row.stack_size == t.stack_size
    &&& row.crashed == (crash_thread == Some(t.id))
    &&& row.frames@.len() == 0
}

/// A module row as read: symbols not yet referenced, a missing code
/// identifier shown as `—`, ownership by path, and holding the fault when
/// the crash address lies in `[base, base + size)` (the end saturating).
pub open spec fn module_row_built(row: ModuleRow, m: ModuleFactsView, fault: Option<u64>) -> bool {
    &&& row.name@ == m.code_file
    &&& row.base@ == Some(m.base)
    &&& row.size == m.size
    &&& row.code_id@ == (match m.code_id {
        Some(c) => c,
        None => "\u{2014}"@,
    })
    &&& row.symbol_status == SymbolStatus::NotReferenced
    &&& row.ownership == (if system_path(m.code_file) {
        ModuleOwnership::System
    } else {
        ModuleOwnership::ApplicationOrThirdParty
    })
    &&& row.contains_fault == (match fault {
        Some(a) => m.base <= a && a < sat_add(m.base, m.size),
        None => false,
    })
}

/// A memory row as read: the bytes and their preview, the recorded access
/// flags, and the recorded type and state (or "Not recorded").
pub open spec fn memory_row_built(row: MemoryRow, r: RegionView) -> bool {
    &&& row.start@ == Some(r.base)
    &&& row.size == r.size
    &&& row.preview@ == hex_preview_of(r.bytes, r.base)
    &&& row.bytes@ == r.bytes
    &&& row.permissions == (match r.info {
        Some(i) => MemoryPermissions::Recorded {
            readable: i.readable,
            writable: i.writable,
            executable: i.executable,
        },
        None => MemoryPermissions::NotRecorded,
    })
    &&& row.mapping_type@ == (match r.info {
        Some(i) => i.kind + " \u{b7} "@ + i.state,
        None => "Not recorded"@,
    })
}

/// A stream row: the stream type in decimal, its size and offset.
pub open spec fn stream_row_built(row: StreamRow, s: StreamFacts) -> bool {
    row.kind@ == dec(s.stream_type as nat) && row.size == s.size && row.rva == s.rva
}

/// The report that the facts give, before any stack is walked.
pub open spec fn report_built(r: DumpReport, path: Seq<char>, file_size: u64, f: FactsView) -> bool {
    &&& r.path@ == path
    &&& r.file_size == file_size
    &&& r.format@ == f.endian + " endian minidump"@
    &&& r.architecture == (match f.system {
        Some(s) => s.architecture,
        None => CpuArchitecture::Unknown,
    })
    &&& r.pointer_size == (match f.system {
        Some(s) => s.pointer_size,
        None => None,
    })
    &&& r.operating_system == (match f.system {
        Some(s) => s.operating_system,
        None => OperatingSystem::Unknown,
    })
    &&& r.crash_reason@ == crash_reason_of(f)
    &&& r.crash_address@ == crash_address_of(f)
    &&& r.crash_thread == crash_thread_of(f)
    &&& r.threads@.len() == (match f.threads {
        Some(ts) => ts.len(),
        None => 0,
    })
    &&& forall|i: int|
        0 <= i < r.threads@.len() ==> thread_row_built(
            #[trigger] r.threads@[i],
            f.threads->0[i],
            crash_thread_of(f),
        )
    &&& r.modules@.len() == (match f.modules {
        Some(ms) => ms.len(),
        None => 0,
    })
    &&& forall|i: int|
        0 <= i < r.modules@.len() ==> module_row_built(
            #[trigger] r.modules@[i],
            f.modules->0[i],
            crash_address_of(f),
        )
    &&& r.memory@.len() == (match f.memory {
        Some(rs) => rs.len(),
        None => 0,
    })
    &&& forall|i: int| 0 <= i < r.memory@.len() ==> memory_row_built(#[trigger] r.memory@[i], f.memory->0[i])
    &&& r.streams@.len() == f.streams.len()
    &&& forall|i: int| 0 <= i < r.streams@.len() ==> stream_row_built(#[trigger] r.streams@[i], f.streams[i])
    &&& views(r.diagnostics@) == diagnostics_of(f)
    &&& r.processor_json@ == Seq::<char>::empty()
}

fn thread_rows(threads: &Vec<ThreadFacts>, crash_thread: Option<u32>) -> (rows: Vec<ThreadRow>)
    ensures
        rows@.len() == threads@.len(),
        forall|i: int| 0 <= i < rows@.len() ==> thread_row_built(#[trigger] rows@[i], threads@[i], crash_thread),
{
    let mut rows: Vec<ThreadRow> = Vec::new();
    let mut i: usize = 0;
    while i < threads.len()
        invariant
            i <= threads@.len(),
            rows@.len() == i,
            forall|k: int| 0 <= k < i ==> thread_row_built(#[trigger] rows@[k], threads@[k], crash_thread),
        decreases threads@.len() - i,
    {
        let t = threads[i];
        let crashed = match crash_thread {
            Some(id) => id == t.id,
            None => false,
        };
        rows.push(
            ThreadRow {
                id: t.id,
                name: String::new(),
                stack_start: VirtualAddress::new(t.stack_start),
                stack_size: t.stack_size,
                crashed,
                frames: Vec::new(),
            },
        );
        i = i + 1;
    }
    rows
}

fn module_rows(modules: &Vec<ModuleFacts>, fault: Option<u64>) -> (rows: Vec<ModuleRow>)
    ensures
        rows@.len() == modules@.len(),
        forall|i: int| 0 <= i < rows@.len() ==> module_row_built(#[trigger] rows@[i], modules@[i]@, fault),
{
    let mut rows: Vec<ModuleRow> = Vec::new();
    let mut i: usize = 0;
    while i < modules.len()
        invariant
            i <= modules@.len(),
            rows@.len() == i,
            forall|k: int| 0 <= k < i ==> module_row_built(#[trigger] rows@[k], modules@[k]@, fault),
        decreases modules@.len() - i,
    {
        let m = &modules[i];
        let code_id = match &m.code_id {
            Some(c) => c.clone(),
            None => string_from("\u{2014}"),
        };
        let contains_fault = match fault {
            Some(a) => m.base <= a && a < m.base.saturating_add(m.size),
            None => false,
        };
        rows.push(
            ModuleRow {
                name: m.code_file.clone(),
                base: VirtualAddress::new(m.base),
                size: m.size,
                code_id,
                symbol_status: SymbolStatus::NotReferenced,
                ownership: classify_module(m.code_file.as_str()),
                contains_fault,
            },
        );
        i = i + 1;
    }
    rows
}

fn memory_rows(regions: &Vec<RegionFacts>) -> (rows: Vec<MemoryRow>)
    ensures
        rows@.len() == regions@.len(),
        forall|i: int| 0 <= i < rows@.len() ==> memory_row_built(#[trigger] rows@[i], regions@[i]@),
{
    let mut rows: Vec<MemoryRow> = Vec::new();
    let mut i: usize = 0;
    while i < regions.len()
        invariant
            i <= regions@.len(),
            rows@.len() == i,
            forall|k: int| 0 <= k < i ==> memory_row_built(#[trigger] rows@[k], regions@[k]@),
        decreases regions@.len() - i,
    {
        let r = &regions[i];
        let (permissions, mapping_type) = match &r.info {
            Some(info) => {
                let mut m = info.kind.clone();
                push_str(&mut m, " \u{b7} ");
                push_str(&mut m, info.state.as_str());
                (
                    MemoryPermissions::Recorded {
                        readable: info.readable,
                        writable: info.writable,
                        executable: info.executable,
                    },
                    m,
                )
            },
            None => (MemoryPermissions::NotRecorded, string_from("Not recorded")),
        };
        let bytes = r.bytes.clone();
        assert(bytes@ =~= r.bytes@);
        rows.push(
            MemoryRow {
                start: VirtualAddress::new(r.base),
                size: r.size,
                preview: hex_preview(r.bytes.as_slice(), r.base),
                bytes,
                permissions,
                mapping_type,
            },
        );
        i = i + 1;
    }
    rows
}

fn stream_rows(streams: &Vec<StreamFacts>) -> (rows: Vec<StreamRow>)
    ensures
        rows@.len() == streams@.len(),
        forall|i: int| 0 <= i < rows@.len() ==> stream_row_built(#[trigger] rows@[i], streams@[i]),
{
    let mut rows: Vec<StreamRow> = Vec::new();
    let mut i: usize = 0;
    while i < streams.len()
        invariant
            i <= streams@.len(),
            rows@.len() == i,
            forall|k: int| 0 <= k < i ==> stream_row_built(#[trigger] rows@[k], streams@[k]),
        decreases streams@.len() - i,
    {
        let s = streams[i];
        rows.push(
            StreamRow { kind: crate::text::dec_string(s.stream_type as u64), size: s.size, rva: s.rva },
        );
        i = i + 1;
    }
    rows
}

/// The report for what a dump holds, before any stack is walked.
pub fn report_from_facts(path: &str, file_size: u64, facts: &DumpFacts) -> (r: DumpReport)
    ensures
        report_built(r, path@, file_size, facts@),
{
    let ghost f = facts@;
    let mut format = facts.endian.clone();
    push_str(&mut format, " endian minidump");
    let mut diagnostics: Vec<String> = Vec::new();
    let (architecture, pointer_size, operating_system) = match facts.system {
        Some(s) => {
            if s.pointer_size.is_none() {
                let mut d = string_from("Pointer decoding is unavailable for architecture ");
                let a = s.architecture.display();
                push_str(&mut d, a.as_str());
                diagnostics.push(d);
            }
            (s.architecture, s.pointer_size, s.operating_system)
        },
        None => {
            diagnostics.push(string_from("System information stream is missing"));
            (CpuArchitecture::Unknown, None, OperatingSystem::Unknown)
        },
    };
    let ghost d1 = views(diagnostics@);
    assert(d1 =~= (match f.system {
        Some(s) => if s.pointer_size is None {
            seq!["Pointer decoding is unavailable for architecture "@ + architecture_text(s.architecture)]
        } else {
            Seq::empty()
        },
        None => seq!["System information stream is missing"@],
    }));
    let (crash_thread, crash_reason, crash_address) = match &facts.crash {
        Some(c) => match &c.detail {
            Some((reason, address)) => (Some(c.thread_id), reason.clone(), Some(*address)),
            None => (Some(c.thread_id), string_from("No exception stream"), None),
        },
        None => {
            diagnostics.push(
                string_from("No exception stream; this may be a manually captured dump"),
            );
            (None, string_from("No exception stream"), None)
        },
    };
    let threads = match &facts.threads {
        Some(ts) => thread_rows(ts, crash_thread),
        None => {
            diagnostics.push(string_from("Thread list stream is missing"));
            Vec::new()
        },
    };
    let modules = match &facts.modules {
        Some(ms) => module_rows(ms, crash_address),
        None => {
            diagnostics.push(string_from("Module list stream is missing"));
            Vec::new()
        },
    };
    let memory = match &facts.memory {
        Some(rs) => memory_rows(rs),
        None => Vec::new(),
    };
    let streams = stream_rows(&facts.streams);
    assert(views(diagnostics@) =~= diagnostics_of(f));
    DumpReport {
        path: string_from(path),
        file_size,
        format,
        architecture,
        pointer_size,
        operating_system,
        crash_reason,
        crash_address: match crash_address {
            Some(a) => VirtualAddress::new(a),
            None => VirtualAddress::unknown(),
        },
        crash_thread,
        threads,
        modules,
        memory,
        streams,
        diagnostics,
        processor_json: String::new(),
    }
}

/// Parses a dump and builds its report, before any stack is walked: an
/// error exactly when the bytes are not a minidump.
pub fn analyse_dump(path: &str, file_size: u64, bytes: &[u8]) -> (r: Result<DumpReport, AnalysisError>)
    ensures
        r is Err <==> !minidump_parses(bytes@),
        r matches Ok(report) ==> report_built(report, path@, file_size, facts_of(bytes@)),
{
    if !dump_parses(bytes) {
        return Err(AnalysisError::NotMinidump);
    }
    let facts = read_dump_facts(bytes);
    Ok(report_from_facts(path, file_size, &facts))
}

// ---------------------------------------------------------------------------
// Recovered stacks
// ---------------------------------------------------------------------------

/// One frame of the stack walker's output; a field that the output lacks,
/// or holds with another type, is `None`.
#[derive(Clone, Debug)]
pub struct FrameRecord {
    pub frame: Option<u64>,
    pub offset: Option<String>,
    pub module: Option<String>,
    pub function: Option<String>,
    pub function_offset: Option<String>,
    pub file: Option<String>,
    pub line: Option<u64>,
    pub trust: Option<String>,
    pub missing_symbols: Option<bool>,
    pub registers: Option<Vec<(String, Option<String>)>>,
}

/// One thread of the stack walker's output.
#[derive(Clone, Debug)]
pub struct ThreadRecord {
    pub thread_id: Option<u64>,
    pub thread_name: Option<String>,
    pub frames: Option<Vec<FrameRecord>>,
}

/// How the stack walk went.
#[derive(Clone, Debug)]
pub enum UnwindOutcome {
    /// The runtime that drives the walker could not start.
    NoRuntime,
    /// The walker failed on this dump.
    Failed,
    /// The walk succeeded but its output could not be written or read.
    Unreadable,
    /// The walker's output as text, and its threads when it lists them.
    Walked { json: String, threads: Option<Vec<ThreadRecord>> },
}

pub struct FrameRecordView {
    pub frame: Option<u64>,
    pub offset: Option<Seq<char>>,
    pub module: Option<Seq<char>>,
    pub function: Option<Seq<char>>,
    pub function_offset: Option<Seq<char>>,
    pub file: Option<Seq<char>>,
    pub line: Option<u64>,
    pub trust: Option<Seq<char>>,
    pub missing_symbols: Option<bool>,
    pub registers: Option<Seq<(Seq<char>, Option<Seq<char>>)>>,
}

pub struct ThreadRecordView {
    pub thread_id: Option<u64>,
    pub thread_name: Option<Seq<char>>,
    pub frames: Option<Seq<FrameRecordView>>,
}

pub open spec fn opt_text(s: Option<String>) -> Option<Seq<char>> {
    match s {
        Some(t) => Some(t@),
        None => None,
    }
}

/// The text, or the empty text when there is none.
pub open spec fn text_or_empty(s: Option<Seq<char>>) -> Seq<char> {
    match s {
        Some(t) => t,
        None => Seq::empty(),
    }
}

pub open spec fn register_record_views(v: Seq<(String, Option<String>)>) -> Seq<(Seq<char>, Option<Seq<char>>)> {
    v.map_values(|r: (String, Option<String>)| (r.0@, opt_text(r.1)))
}

impl View for FrameRecord {
    type V = FrameRecordView;

    open spec fn view(&self) -> FrameRecordView {
        FrameRecordView {
            frame: self.frame,
            offset: opt_text(self.offset),
            module: opt_text(self.module),
            function: opt_text(self.function),
            function_offset: opt_text(self.function_offset),
            file: opt_text(self.file),
            line: self.line,
            trust: opt_text(self.trust),
            missing_symbols: self.missing_symbols,
            registers: match self.registers {
                Some(r) => Some(register_record_views(r@)),
                None => None,
            },
        }
    }
}

pub open spec fn frame_record_views(v: Seq<FrameRecord>) -> Seq<FrameRecordView> {
    v.map_values(|f: FrameRecord| f@)
}

impl View for ThreadRecord {
    type V = ThreadRecordView;

    open spec fn view(&self) -> ThreadRecordView {
        ThreadRecordView {
            thread_id: self.thread_id,
            thread_name: opt_text(self.thread_name),
            frames: match self.frames {
                Some(f) => Some(frame_record_views(f@)),
                None => None,
            },
        }
    }
}

pub open spec fn thread_record_views(v: Seq<ThreadRecord>) -> Seq<ThreadRecordView> {
    v.map_values(|t: ThreadRecord| t@)
}

/// The frame row for a walker frame: missing numbers are 0, missing texts
/// empty, a missing flag false, the instruction parsed from the offset
/// text, and each register's value its text or empty.
pub open spec fn frame_built(row: FrameRow, r: FrameRecordView) -> bool {
    let regs = match r.registers {
        Some(g) => g,
        None => Seq::empty(),
    };
    &&& row.index == (match r.frame {
        Some(i) => i,
        None => 0,
    })
    &&& row.instruction@ == parse_address_text(text_or_empty(r.offset))
    &&& row.module@ == text_or_empty(r.module)
    &&& row.function@ == text_or_empty(r.function)
    &&& row.function_offset@ == text_or_empty(r.function_offset)
    &&& row.source_file@ == text_or_empty(r.file)
    &&& row.source_line == r.line
    &&& row.trust@ == text_or_empty(r.trust)
    &&& row.missing_symbols == (match r.missing_symbols {
        Some(b) => b,
        None => false,
    })
    &&& row.registers@.len() == regs.len()
    &&& forall|i: int|
        0 <= i < regs.len() ==> (#[trigger] row.registers@[i]).0@ == regs[i].0
            && row.registers@[i].1@ == text_or_empty(regs[i].1)
}

pub open spec fn frames_built(rows: Seq<FrameRow>, records: Seq<FrameRecordView>) -> bool {
    rows.len() == records.len() && forall|i: int| 0 <= i < rows.len() ==> frame_built(#[trigger] rows[i], records[i])
}

fn text_of(s: &Option<String>) -> (t: String)
    ensures
        t@ == text_or_empty(opt_text(*s)),
{
    match s {
        Some(v) => v.clone(),
        None => String::new(),
    }
}

/// The frame row for one frame of the walker's output.
pub fn frame_from_record(record: &FrameRecord) -> (row: FrameRow)
    ensures
        frame_built(row, record@),
{
    let mut registers: Vec<(String, String)> = Vec::new();
    match &record.registers {
        Some(regs) => {
            let mut i: usize = 0;
            while i < regs.len()
                invariant
                    i <= regs@.len(),
                    registers@.len() == i,
                    forall|k: int|
                        0 <= k < i ==> (#[trigger] registers@[k]).0@ == regs@[k].0@
                            && registers@[k].1@ == text_or_empty(opt_text(regs@[k].1)),
                decreases regs@.len() - i,
            {
                let (name, value) = &regs[i];
                registers.push((name.clone(), text_of(value)));
                i = i + 1;
            }
        },
        None => {},
    }
    let offset = text_of(&record.offset);
    FrameRow {
        index: match record.frame {
            Some(i) => i,
            None => 0,
        },
        instruction: VirtualAddress::from_text(offset.as_str()),
        module: text_of(&record.module),
        function: text_of(&record.function),
        function_offset: text_of(&record.function_offset),
        source_file: text_of(&record.file),
        source_line: record.line,
        trust: text_of(&record.trust),
        missing_symbols: match record.missing_symbols {
            Some(b) => b,
            None => false,
        },
        registers,
    }
}

fn frames_from_records(records: &Vec<FrameRecord>) -> (rows: Vec<FrameRow>)
    ensures
        frames_built(rows@, frame_record_views(records@)),
{
    let mut rows: Vec<FrameRow> = Vec::new();
    let mut i: usize = 0;
    while i < records.len()
        invariant
            i <= records@.len(),
            rows@.len() == i,
            forall|k: int| 0 <= k < i ==> frame_built(#[trigger] rows@[k], records@[k]@),
        decreases records@.len() - i,
    {
        rows.push(frame_from_record(&records[i]));
        i = i + 1;
    }
    rows
}

/// Index of the first row whose thread id is `id`.
pub open spec fn first_row_with_id(rows: Seq<ThreadRow>, id: u32) -> Option<int>
    decreases rows.len(),
{
    if rows.len() == 0 {
        None
    } else if rows[0].id == id {
        Some(0)
    } else {
        match first_row_with_id(rows.drop_first(), id) {
            Some(i) => Some(i + 1),
            None => None,
        }
    }
}

/// The row a walker thread lands on: the first row whose id is the
/// walker's thread id truncated to 32 bits; none without an id.
pub open spec fn record_target(rows: Seq<ThreadRow>, r: ThreadRecordView) -> Option<int> {
    match r.thread_id {
        Some(id) => first_row_with_id(rows, id as u32),
        None => None,
    }
}

/// The last of `records` that lands on row `k`.
pub open spec fn last_record_for(rows: Seq<ThreadRow>, records: Seq<ThreadRecordView>, k: int) -> Option<
    ThreadRecordView,
>
    decreases records.len(),
{
    if records.len() == 0 {
        None
    } else if record_target(rows, records.last()) == Some(k) {
        Some(records.last())
    } else {
        last_record_for(rows, records.drop_last(), k)
    }
}

/// Row `new` is row `old` after the walker threads: the last walker thread
/// that lands on it gives its name (empty without one) and its frames (none
/// without a frame list); a row that no walker thread lands on is unchanged.
pub open spec fn thread_applied(old: ThreadRow, new: ThreadRow, r: Option<ThreadRecordView>) -> bool {
    &&& new.id == old.id
    &&& new.stack_start == old.stack_start
    &&& new.stack_size == old.stack_size
    &&& new.crashed == old.crashed
    &&& match r {
        Some(rec) => new.name@ == text_or_empty(rec.thread_name) && frames_built(
            new.frames@,
            match rec.frames {
                Some(f) => f,
                None => Seq::empty(),
            },
        ),
        None => new.name == old.name && new.frames == old.frames,
    }
}

pub open spec fn threads_applied(
    old: Seq<ThreadRow>,
    new: Seq<ThreadRow>,
    records: Seq<ThreadRecordView>,
) -> bool {
    old.len() == new.len() && forall|k: int|
        0 <= k < old.len() ==> thread_applied(old[k], #[trigger] new[k], last_record_for(old, records, k))
}

/// Some frame of the threads names the module.
pub open spec fn module_referenced(m: ModuleRow, threads: Seq<ThreadRow>) -> bool {
    exists|t: int, f: int|
        0 <= t < threads.len() && 0 <= f < threads[t].frames@.len() && frame_names_module(
            m,
            #[trigger] threads[t].frames@[f],
        )
}

/// Some frame that names the module lacks symbols.
pub open spec fn module_missing_symbols(m: ModuleRow, threads: Seq<ThreadRow>) -> bool {
    exists|t: int, f: int|
        0 <= t < threads.len() && 0 <= f < threads[t].frames@.len() && frame_names_module(
            m,
            #[trigger] threads[t].frames@[f],
        ) && threads[t].frames@[f].missing_symbols
}

/// Some frame that names the module has a function name.
pub open spec fn module_has_function(m: ModuleRow, threads: Seq<ThreadRow>) -> bool {
    exists|t: int, f: int|
        0 <= t < threads.len() && 0 <= f < threads[t].frames@.len() && frame_names_module(
            m,
            #[trigger] threads[t].frames@[f],
        ) && threads[t].frames@[f].function@.len() > 0
}

/// A module's symbol status from the frames that name it: not referenced
/// without any, missing when one lacks symbols, loaded when one has a
/// function name, addresses only otherwise.
pub open spec fn symbol_status_for(m: ModuleRow, threads: Seq<ThreadRow>) -> SymbolStatus {
    if !module_referenced(m, threads) {
        SymbolStatus::NotReferenced
    } else if module_missing_symbols(m, threads) {
        SymbolStatus::Missing
    } else if module_has_function(m, threads) {
        SymbolStatus::Loaded
    } else {
        SymbolStatus::AddressesOnly
    }
}

/// Row `new` is module `old` with the symbol status its frames give.
pub open spec fn module_statused(old: ModuleRow, new: ModuleRow, threads: Seq<ThreadRow>) -> bool {
    &&& new.name == old.name
    &&& new.base == old.base
    &&& new.size == old.size
    &&& new.code_id == old.code_id
    &&& new.ownership == old.ownership
    &&& new.contains_fault == old.contains_fault
    &&& new.symbol_status == symbol_status_for(old, threads)
}

/// A module's symbol status from the frames of the threads.
pub fn module_symbol_status(module: &ModuleRow, threads: &Vec<ThreadRow>) -> (s: SymbolStatus)
    ensures
        s == symbol_status_for(*module, threads@),
{
    let mut referenced = false;
    let mut missing = false;
    let mut named = false;
    let mut t: usize = 0;
    while t < threads.len()
        invariant
            t <= threads@.len(),
            referenced == (exists|a: int, b: int|
                0 <= a < t && 0 <= b < threads@[a].frames@.len() && frame_names_module(
                    *module,
                    #[trigger] threads@[a].frames@[b],
                )),
            missing == (exists|a: int, b: int|
                0 <= a < t && 0 <= b < threads@[a].frames@.len() && frame_names_module(
                    *module,
                    #[trigger] threads@[a].frames@[b],
                ) && threads@[a].frames@[b].missing_symbols),
            named == (exists|a: int, b: int|
                0 <= a < t && 0 <= b < threads@[a].frames@.len() && frame_names_module(
                    *module,
                    #[trigger] threads@[a].frames@[b],
                ) && threads@[a].frames@[b].function@.len() > 0),
        decreases threads@.len() - t,
    {
        let frames = &threads[t].frames;
        let ghost r0 = referenced;
        let ghost m0 = missing;
        let ghost n0 = named;
        let mut f: usize = 0;
        while f < frames.len()
            invariant
                frames@ == threads@[t as int].frames@,
                f <= frames@.len(),
                referenced == (r0 || exists|b: int|
                    0 <= b < f && frame_names_module(*module, #[trigger] frames@[b])),
                missing == (m0 || exists|b: int|
                    0 <= b < f && frame_names_module(*module, #[trigger] frames@[b])
                        && frames@[b].missing_symbols),
                named == (n0 || exists|b: int|
                    0 <= b < f && frame_names_module(*module, #[trigger] frames@[b])
                        && frames@[b].function@.len() > 0),
            decreases frames@.len() - f,
        {
            let frame = &frames[f];
            if frame_names_module_exec(module, frame) {
                referenced = true;
                if frame.missing_symbols {
                    missing = true;
                }
                if !frame.function.as_str().is_empty() {
                    named = true;
                }
            }
            f = f + 1;
        }
        proof {
            let ts = threads@;
            let tt = t as int;
            assert(referenced == (exists|a: int, b: int|
                0 <= a < tt + 1 && 0 <= b < ts[a].frames@.len() && frame_names_module(
                    *module,
                    #[trigger] ts[a].frames@[b],
                ))) by {
                if referenced && !r0 {
                    let b = choose|b: int| 0 <= b < frames@.len() && frame_names_module(*module, #[trigger] frames@[b]);
                    assert(ts[tt].frames@[b] == frames@[b]);
                }
                if exists|a: int, b: int|
                    0 <= a < tt + 1 && 0 <= b < ts[a].frames@.len() && frame_names_module(
                        *module,
                        #[trigger] ts[a].frames@[b],
                    ) {
                    let (a, b) = choose|a: int, b: int|
                        0 <= a < tt + 1 && 0 <= b < ts[a].frames@.len() && frame_names_module(
                            *module,
                            #[trigger] ts[a].frames@[b],
                        );
                    if a == tt {
                        assert(frame_names_module(*module, frames@[b]));
                    }
                }
            }
            assert(missing == (exists|a: int, b: int|
                0 <= a < tt + 1 && 0 <= b < ts[a].frames@.len() && frame_names_module(
                    *module,
                    #[trigger] ts[a].frames@[b],
                ) && ts[a].frames@[b].missing_symbols)) by {
                if missing && !m0 {
                    let b = choose|b: int|
                        0 <= b < frames@.len() && frame_names_module(*module, #[trigger] frames@[b])
                            && frames@[b].missing_symbols;
                    assert(ts[tt].frames@[b] == frames@[b]);
                }
                if exists|a: int, b: int|
                    0 <= a < tt + 1 && 0 <= b < ts[a].frames@.len() && frame_names_module(
                        *module,
                        #[trigger] ts[a].frames@[b],
                    ) && ts[a].frames@[b].missing_symbols {
                    let (a, b) = choose|a: int, b: int|
                        0 <= a < tt + 1 && 0 <= b < ts[a].frames@.len() && frame_names_module(
                            *module,
                            #[trigger] ts[a].frames@[b],
                        ) && ts[a].frames@[b].missing_symbols;
                    if a == tt {
                        assert(frame_names_module(*module, frames@[b]) && frames@[b].missing_symbols);
                    }
                }
            }
            assert(named == (exists|a: int, b: int|
                0 <= a < tt + 1 && 0 <= b < ts[a].frames@.len() && frame_names_module(
                    *module,
                    #[trigger] ts[a].frames@[b],
                ) && ts[a].frames@[b].function@.len() > 0)) by {
                if named && !n0 {
                    let b = choose|b: int|
                        0 <= b < frames@.len() && frame_names_module(*module, #[trigger] frames@[b])
                            && frames@[b].function@.len() > 0;
                    assert(ts[tt].frames@[b] == frames@[b]);
                }
                if exists|a: int, b: int|
                    0 <= a < tt + 1 && 0 <= b < ts[a].frames@.len() && frame_names_module(
                        *module,
                        #[trigger] ts[a].frames@[b],
                    ) && ts[a].frames@[b].function@.len() > 0 {
                    let (a, b) = choose|a: int, b: int|
                        0 <= a < tt + 1 && 0 <= b < ts[a].frames@.len() && frame_names_module(
                            *module,
                            #[trigger] ts[a].frames@[b],
                        ) && ts[a].frames@[b].function@.len() > 0;
                    if a == tt {
                        assert(frame_names_module(*module, frames@[b]) && frames@[b].function@.len()
                            > 0);
                    }
                }
            }
        }
        t = t + 1;
    }
    if !referenced {
        SymbolStatus::NotReferenced
    } else if missing {
        SymbolStatus::Missing
    } else if named {
        SymbolStatus::Loaded
    } else {
        SymbolStatus::AddressesOnly
    }
}

fn first_row_index(rows: &Vec<ThreadRow>, id: u32) -> (r: Option<usize>)
    ensures
        match r {
            Some(k) => first_row_with_id(rows@, id) == Some(k as int) && k < rows@.len(),
            None => first_row_with_id(rows@, id) is None,
        },
{
    let n = rows.len();
    let mut i: usize = 0;
    assert(rows@.skip(0) =~= rows@);
    while i < n
        invariant
            n == rows@.len(),
            i <= n,
            first_row_with_id(rows@, id) == (match first_row_with_id(rows@.skip(i as int), id) {
                Some(j) => Some(j + i),
                None => None,
            }),
        decreases n - i,
    {
        proof {
            assert(rows@.skip(i as int).drop_first() =~= rows@.skip(i + 1));
        }
        if rows[i].id == id {
            return Some(i);
        }
        i = i + 1;
    }
    None
}

/// For each walker thread, the row it lands on.
fn record_targets(rows: &Vec<ThreadRow>, records: &Vec<ThreadRecord>) -> (targets: Vec<Option<usize>>)
    ensures
        targets@.len() == records@.len(),
        forall|j: int|
            0 <= j < targets@.len() ==> match #[trigger] targets@[j] {
                Some(k) => record_target(rows@, records@[j]@) == Some(k as int) && k < rows@.len(),
                None => record_target(rows@, records@[j]@) is None,
            },
{
    let mut targets: Vec<Option<usize>> = Vec::new();
    let mut j: usize = 0;
    while j < records.len()
        invariant
            j <= records@.len(),
            targets@.len() == j,
            forall|i: int|
                0 <= i < j ==> match #[trigger] targets@[i] {
                    Some(k) => record_target(rows@, records@[i]@) == Some(k as int) && k < rows@.len(),
                    None => record_target(rows@, records@[i]@) is None,
                },
        decreases records@.len() - j,
    {
        let target = match records[j].thread_id {
            Some(id) => first_row_index(rows, id as u32),
            None => None,
        };
        targets.push(target);
        j = j + 1;
    }
    targets
}

/// The last walker thread that lands on row `k`.
fn last_record_index(
    targets: &Vec<Option<usize>>,
    k: usize,
    Ghost(rows): Ghost<Seq<ThreadRow>>,
    Ghost(records): Ghost<Seq<ThreadRecordView>>,
) -> (r: Option<usize>)
    requires
        targets@.len() == records.len(),
        forall|j: int|
            0 <= j < targets@.len() ==> match #[trigger] targets@[j] {
                Some(t) => record_target(rows, records[j]) == Some(t as int),
                None => record_target(rows, records[j]) is None,
            },
    ensures
        match r {
            Some(j) => j < records.len() && last_record_for(rows, records, k as int) == Some(records[j as int]),
            None => last_record_for(rows, records, k as int) is None,
        },
{
    let mut chosen: Option<usize> = None;
    let mut j: usize = 0;
    while j < targets.len()
        invariant
            j <= targets@.len(),
            targets@.len() == records.len(),
            forall|i: int|
                0 <= i < targets@.len() ==> match #[trigger] targets@[i] {
                    Some(t) => record_target(rows, records[i]) == Some(t as int),
                    None => record_target(rows, records[i]) is None,
                },
            match chosen {
                Some(i) => i < j && last_record_for(rows, records.take(j as int), k as int) == Some(records[i as int]),
                None => last_record_for(rows, records.take(j as int), k as int) is None,
            },
        decreases targets@.len() - j,
    {
        proof {
            assert(records.take(j + 1).drop_last() =~= records.take(j as int));
            assert(records.take(j + 1).last() == records[j as int]);
            let _ = targets@[j as int];
        }
        match targets[j] {
            Some(t) => {
                if t == k {
                    chosen = Some(j);
                }
            },
            None => {},
        }
        j = j + 1;
    }
    assert(records.take(targets@.len() as int) =~= records);
    chosen
}

/// The thread rows after the walker threads: each row takes the name and
/// frames of the last walker thread that lands on it.
pub fn apply_thread_records(rows: &mut Vec<ThreadRow>, records: &Vec<ThreadRecord>)
    ensures
        threads_applied(old(rows)@, final(rows)@, thread_record_views(records@)),
{
    let ghost start = rows@;
    let ghost recs = thread_record_views(records@);
    let targets = record_targets(rows, records);
    assert forall|j: int|
        0 <= j < targets@.len() implies match #[trigger] targets@[j] {
            Some(t) => record_target(start, recs[j]) == Some(t as int),
            None => record_target(start, recs[j]) is None,
        } by {
        assert(recs[j] == records@[j]@);
    }
    let n = rows.len();
    let mut k: usize = 0;
    while k < n
        invariant
            n == start.len(),
            rows@.len() == n,
            k <= n,
            recs == thread_record_views(records@),
            targets@.len() == recs.len(),
            forall|j: int|
                0 <= j < targets@.len() ==> match #[trigger] targets@[j] {
                    Some(t) => record_target(start, recs[j]) == Some(t as int),
                    None => record_target(start, recs[j]) is None,
                },
            forall|i: int| 0 <= i < k ==> thread_applied(start[i], #[trigger] rows@[i], last_record_for(start, recs, i)),
            forall|i: int| k <= i < n ==> #[trigger] rows@[i] == start[i],
        decreases n - k,
    {
        let chosen = last_record_index(&targets, k, Ghost(start), Ghost(recs));
        match chosen {
            Some(j) => {
                let record = &records[j];
                assert(recs[j as int] == record@);
                let name = text_of(&record.thread_name);
                let frames = match &record.frames {
                    Some(f) => frames_from_records(f),
                    None => {
                        assert(frames_built(Seq::<FrameRow>::empty(), Seq::empty()));
                        Vec::new()
                    },
                };
                let mut row = rows.remove(k);
                assert(row == start[k as int]);
                row.name = name;
                row.frames = frames;
                let ghost before = rows@;
                rows.insert(k, row);
                assert forall|i: int| k < i < n implies #[trigger] rows@[i] == start[i] by {
                    assert(rows@[i] == before[i - 1]);
                }
            },
            None => {},
        }
        k = k + 1;
    }
}

/// Every module with the symbol status its frames in `threads` give.
pub fn set_symbol_statuses(modules: &mut Vec<ModuleRow>, threads: &Vec<ThreadRow>)
    ensures
        final(modules)@.len() == old(modules)@.len(),
        forall|k: int|
            0 <= k < old(modules)@.len() ==> module_statused(
                old(modules)@[k],
                #[trigger] final(modules)@[k],
                threads@,
            ),
{
    let ghost start = modules@;
    let n = modules.len();
    let mut k: usize = 0;
    while k < n
        invariant
            n == start.len(),
            modules@.len() == n,
            k <= n,
            forall|i: int| 0 <= i < k ==> module_statused(start[i], #[trigger] modules@[i], threads@),
            forall|i: int| k <= i < n ==> #[trigger] modules@[i] == start[i],
        decreases n - k,
    {
        let status = module_symbol_status(&modules[k], threads);
        let mut m = modules.remove(k);
        m.symbol_status = status;
        let ghost before = modules@;
        modules.insert(k, m);
        assert forall|i: int| k < i < n implies #[trigger] modules@[i] == start[i] by {
            assert(modules@[i] == before[i - 1]);
        }
        k = k + 1;
    }
}

/// The report fields that the stack walk leaves alone.
pub open spec fn same_dump(a: DumpReport, b: DumpReport) -> bool {
    &&& b.path == a.path
    &&& b.file_size == a.file_size
    &&& b.format == a.format
    &&& b.architecture == a.architecture
    &&& b.pointer_size == a.pointer_size
    &&& b.operating_system == a.operating_system
    &&& b.crash_reason == a.crash_reason
    &&& b.crash_address == a.crash_address
    &&& b.crash_thread == a.crash_thread
    &&& b.memory == a.memory
    &&& b.streams == a.streams
}

/// Applies the outcome of the stack walk to the report: a failure is
/// recorded as a diagnostic; output that could not be read changes nothing;
/// otherwise the output is kept, and when it lists threads, they give the
/// thread rows their names and frames and the modules their symbol status.
pub fn add_call_stacks(report: &mut DumpReport, outcome: UnwindOutcome)
    ensures
        same_dump(*old(report), *final(report)),
        match outcome {
            UnwindOutcome::NoRuntime => {
                &&& final(report).threads == old(report).threads
                &&& final(report).modules == old(report).modules
                &&& final(report).processor_json == old(report).processor_json
                &&& views(final(report).diagnostics@) == views(old(report).diagnostics@).push(
                    "Could not start the stack unwinder"@,
                )
            },
            UnwindOutcome::Failed => {
                &&& final(report).threads == old(report).threads
                &&& final(report).modules == old(report).modules
                &&& final(report).processor_json == old(report).processor_json
                &&& views(final(report).diagnostics@) == views(old(report).diagnostics@).push(
                    "Stack unwinding was not available for this dump"@,
                )
            },
            UnwindOutcome::Unreadable => *final(report) == *old(report),
            UnwindOutcome::Walked { json, threads } => {
                &&& final(report).diagnostics == old(report).diagnostics
                &&& final(report).processor_json@ == json@
                &&& match threads {
                    Some(records) => {
                        &&& threads_applied(
                            old(report).threads@,
                            final(report).threads@,
                            thread_record_views(records@),
                        )
                        &&& final(report).modules@.len() == old(report).modules@.len()
                        &&& forall|k: int|
                            0 <= k < old(report).modules@.len() ==> module_statused(
                                old(report).modules@[k],
                                #[trigger] final(report).modules@[k],
                                final(report).threads@,
                            )
                    },
                    None => final(report).threads == old(report).threads
                        && final(report).modules == old(report).modules,
                }
            },
        },
{
    match outcome {
        UnwindOutcome::NoRuntime => {
            let ghost before = views(report.diagnostics@);
            report.diagnostics.push(string_from("Could not start the stack unwinder"));
            assert(views(report.diagnostics@) =~= before.push("Could not start the stack unwinder"@));
        },
        UnwindOutcome::Failed => {
            let ghost before = views(report.diagnostics@);
            report.diagnostics.push(string_from("Stack unwinding was not available for this dump"));
            assert(views(report.diagnostics@) =~= before.push(
                "Stack unwinding was not available for this dump"@,
            ));
        },
        UnwindOutcome::Unreadable => {},
        UnwindOutcome::Walked { json, threads } => {
            report.processor_json = json;
            match threads {
                Some(records) => {
                    apply_thread_records(&mut report.threads, &records);
                    set_symbol_statuses(&mut report.modules, &report.threads);
                },
                None => {},
            }
        },
    }
}

/// The pointer size of a report built from a dump follows its architecture:
/// four bytes for the 32-bit processors, eight for their 64-bit forms, and
/// none when the architecture is unknown or the system information is
/// missing.
pub proof fn lemma_pointer_size_follows_architecture(
    report: DumpReport,
    path: Seq<char>,
    file_size: u64,
    bytes: Seq<u8>,
)
    requires
        report_built(report, path, file_size, facts_of(bytes)),
    ensures
        report.pointer_size == pointer_size_of(report.architecture),
{
}

/// Module ownership ignores ASCII case: a path and its lower-case form are
/// classified alike.
pub proof fn lemma_system_path_ignores_case(name: Seq<char>)
    ensures
        system_path(lower(name)) == system_path(name),
{
    assert(lower(lower(name)) =~= lower(name));
}

} // verus!
