//! The typed crash report exchanged between analysis, investigation and
//! presentation code. Paths are held as text.

use crate::text::{
    digit_char, hex, hex_pad, is_space, lemma_hex_len, power, push_char, push_hex_pad, push_str, repeat, string_from,
    trim, trim_end, trim_of, trim_start,
};
use vstd::prelude::*;

verus! {

broadcast use vstd::string::group_string_axioms;

#[derive(Clone, Debug)]
pub struct SymbolConfig {
    pub local_paths: Vec<String>,
    pub server_urls: Vec<String>,
    pub cache_dir: String,
}

impl Default for SymbolConfig {
    fn default() -> (r: Self)
        ensures
            r.local_paths@.len() == 0,
            r.server_urls@.len() == 0,
            r.cache_dir@ == Seq::<char>::empty(),
    {
        SymbolConfig { local_paths: Vec::new(), server_urls: Vec::new(), cache_dir: String::new() }
    }
}

#[derive(Clone, Debug)]
pub struct DumpReport {
    pub path: String,
    pub file_size: u64,
    pub format: String,
    pub architecture: CpuArchitecture,
    pub pointer_size: Option<PointerSize>,
    pub operating_system: OperatingSystem,
    pub crash_reason: String,
    pub crash_address: VirtualAddress,
    pub crash_thread: Option<u32>,
    pub threads: Vec<ThreadRow>,
    pub modules: Vec<ModuleRow>,
    pub memory: Vec<MemoryRow>,
    pub streams: Vec<StreamRow>,
    pub diagnostics: Vec<String>,
    pub processor_json: String,
}

impl Default for DumpReport {
    fn default() -> (r: Self)
        ensures
            r.path@ == Seq::<char>::empty(),
            r.file_size == 0,
            r.format@ == Seq::<char>::empty(),
            r.architecture == CpuArchitecture::Unknown,
            r.pointer_size is None,
            r.operating_system == OperatingSystem::Unknown,
            r.crash_reason@ == Seq::<char>::empty(),
            r.crash_address@ is None,
            r.crash_thread is None,
            r.threads@.len() == 0,
            r.modules@.len() == 0,
            r.memory@.len() == 0,
            r.streams@.len() == 0,
            r.diagnostics@.len() == 0,
            r.processor_json@ == Seq::<char>::empty(),
    {
        DumpReport {
            path: String::new(),
            file_size: 0,
            format: String::new(),
            architecture: CpuArchitecture::Unknown,
            pointer_size: None,
            operating_system: OperatingSystem::Unknown,
            crash_reason: String::new(),
            crash_address: VirtualAddress::unknown(),
            crash_thread: None,
            threads: Vec::new(),
            modules: Vec::new(),
            memory: Vec::new(),
            streams: Vec::new(),
            diagnostics: Vec::new(),
            processor_json: String::new(),
        }
    }
}

#[derive(Clone, Copy, Debug, Default, PartialEq, Eq, Structural)]
pub enum OperatingSystem {
    Windows,
    MacOs,
    Ios,
    Linux,
    Solaris,
    Android,
    Ps3,
    NaCl,
    #[default]
    Unknown,
}

pub open spec fn operating_system_text(os: OperatingSystem) -> Seq<char> {
    match os {
        OperatingSystem::Windows => "Windows"@,
        OperatingSystem::MacOs => "macOS"@,
        OperatingSystem::Ios => "iOS"@,
        OperatingSystem::Linux => "Linux"@,
        OperatingSystem::Solaris => "Solaris"@,
        OperatingSystem::Android => "Android"@,
        OperatingSystem::Ps3 => "PlayStation 3"@,
        OperatingSystem::NaCl => "Native Client"@,
        OperatingSystem::Unknown => "Unknown"@,
    }
}

impl OperatingSystem {
    /// The display name of the operating system.
    pub fn display(&self) -> (s: String)
        ensures
            s@ == operating_system_text(*self),
    {
        string_from(
            match self {
                OperatingSystem::Windows => "Windows",
                OperatingSystem::MacOs => "macOS",
                OperatingSystem::Ios => "iOS",
                OperatingSystem::Linux => "Linux",
                OperatingSystem::Solaris => "Solaris",
                OperatingSystem::Android => "Android",
                OperatingSystem::Ps3 => "PlayStation 3",
                OperatingSystem::NaCl => "Native Client",
                OperatingSystem::Unknown => "Unknown",
            },
        )
    }
}

#[derive(Clone, Copy, Debug, Default, PartialEq, Eq, Structural)]
pub enum CpuArchitecture {
    X86,
    X86_64,
    Ppc,
    Ppc64,
    Sparc,
    Arm,
    Arm64,
    Mips,
    Mips64,
    #[default]
    Unknown,
}

pub open spec fn architecture_text(arch: CpuArchitecture) -> Seq<char> {
    match arch {
        CpuArchitecture::X86 => "x86"@,
        CpuArchitecture::X86_64 => "x86-64"@,
        CpuArchitecture::Ppc => "PowerPC"@,
        CpuArchitecture::Ppc64 => "PowerPC 64-bit"@,
        CpuArchitecture::Sparc => "SPARC"@,
        CpuArchitecture::Arm => "ARM"@,
        CpuArchitecture::Arm64 => "ARM64"@,
        CpuArchitecture::Mips => "MIPS"@,
        CpuArchitecture::Mips64 => "MIPS64"@,
        CpuArchitecture::Unknown => "Unknown"@,
    }
}

impl CpuArchitecture {
    /// The display name of the architecture.
    pub fn display(&self) -> (s: String)
        ensures
            s@ == architecture_text(*self),
    {
        string_from(
            match self {
                CpuArchitecture::X86 => "x86",
                CpuArchitecture::X86_64 => "x86-64",
                CpuArchitecture::Ppc => "PowerPC",
                CpuArchitecture::Ppc64 => "PowerPC 64-bit",
                CpuArchitecture::Sparc => "SPARC",
                CpuArchitecture::Arm => "ARM",
                CpuArchitecture::Arm64 => "ARM64",
                CpuArchitecture::Mips => "MIPS",
                CpuArchitecture::Mips64 => "MIPS64",
                CpuArchitecture::Unknown => "Unknown",
            },
        )
    }
}

#[derive(Clone, Copy, Debug, PartialEq, Eq, Structural)]
pub enum PointerSize {
    Bytes4,
    Bytes8,
}

pub open spec fn pointer_bytes(size: PointerSize) -> nat {
    match size {
        PointerSize::Bytes4 => 4,
        PointerSize::Bytes8 => 8,
    }
}

impl PointerSize {
    /// Width of a pointer in bytes.
    pub fn bytes(self) -> (n: usize)
        ensures
            n == pointer_bytes(self),
    {
        match self {
            PointerSize::Bytes4 => 4,
            PointerSize::Bytes8 => 8,
        }
    }
}

#[derive(Clone, Debug)]
pub struct ThreadRow {
    pub id: u32,
    pub name: String,
    pub stack_start: VirtualAddress,
    pub stack_size: u64,
    pub crashed: bool,
    pub frames: Vec<FrameRow>,
}

#[derive(Clone, Debug)]
pub struct FrameRow {
    pub index: u64,
    pub instruction: VirtualAddress,
    pub module: String,
    pub function: String,
    pub function_offset: String,
    pub source_file: String,
    pub source_line: Option<u64>,
    pub trust: String,
    pub missing_symbols: bool,
    pub registers: Vec<(String, String)>,
}

impl Default for FrameRow {
    fn default() -> (r: Self)
        ensures
            r.index == 0,
            r.instruction@ is None,
            r.module@ == Seq::<char>::empty(),
            r.function@ == Seq::<char>::empty(),
            r.function_offset@ == Seq::<char>::empty(),
            r.source_file@ == Seq::<char>::empty(),
            r.source_line is None,
            r.trust@ == Seq::<char>::empty(),
            !r.missing_symbols,
            r.registers@.len() == 0,
    {
        FrameRow {
            index: 0,
            instruction: VirtualAddress::unknown(),
            module: String::new(),
            function: String::new(),
            function_offset: String::new(),
            source_file: String::new(),
            source_line: None,
            trust: String::new(),
            missing_symbols: false,
            registers: Vec::new(),
        }
    }
}

#[derive(Clone, Debug)]
pub struct ModuleRow {
    pub name: String,
    pub base: VirtualAddress,
    pub size: u64,
    pub code_id: String,
    pub symbol_status: SymbolStatus,
    pub ownership: ModuleOwnership,
    pub contains_fault: bool,
}

#[derive(Clone, Copy, Debug, Default, PartialEq, Eq, Structural)]
pub enum ModuleOwnership {
    System,
    #[default]
    ApplicationOrThirdParty,
}

pub open spec fn ownership_text(o: ModuleOwnership) -> Seq<char> {
    match o {
        ModuleOwnership::System => "System"@,
        ModuleOwnership::ApplicationOrThirdParty => "Application / third-party"@,
    }
}

impl ModuleOwnership {
    /// The display name of the ownership class.
    pub fn display(&self) -> (s: String)
        ensures
            s@ == ownership_text(*self),
    {
        string_from(
            match self {
                ModuleOwnership::System => "System",
                ModuleOwnership::ApplicationOrThirdParty => "Application / third-party",
            },
        )
    }
}

#[derive(Clone, Copy, Debug, Default, PartialEq, Eq, Structural)]
pub enum SymbolStatus {
    #[default]
    NotReferenced,
    Missing,
    Loaded,
    AddressesOnly,
}

pub open spec fn symbol_status_text(s: SymbolStatus) -> Seq<char> {
    match s {
        SymbolStatus::NotReferenced => "Not used by recovered frames"@,
        SymbolStatus::Missing => "Missing symbols"@,
        SymbolStatus::Loaded => "Symbols loaded"@,
        SymbolStatus::AddressesOnly => "Addresses only"@,
    }
}

impl SymbolStatus {
    /// Whether symbols were looked for and not found.
    pub fn is_missing(self) -> (b: bool)
        ensures
            b == (self == SymbolStatus::Missing),
    {
        match self {
            SymbolStatus::Missing => true,
            _ => false,
        }
    }

    /// The display text of the status.
    pub fn display(&self) -> (s: String)
        ensures
            s@ == symbol_status_text(*self),
    {
        string_from(
            match self {
                SymbolStatus::NotReferenced => "Not used by recovered frames",
                SymbolStatus::Missing => "Missing symbols",
                SymbolStatus::Loaded => "Symbols loaded",
                SymbolStatus::AddressesOnly => "Addresses only",
            },
        )
    }
}

#[derive(Clone, Debug)]
pub struct MemoryRow {
    pub start: VirtualAddress,
    pub size: u64,
    pub preview: String,
    pub bytes: Vec<u8>,
    pub permissions: MemoryPermissions,
    pub mapping_type: String,
}

#[derive(Clone, Copy, Debug, Default, PartialEq, Eq, Structural)]
pub enum MemoryPermissions {
    Recorded { readable: bool, writable: bool, executable: bool },
    #[default]
    NotRecorded,
}

pub open spec fn permissions_text(p: MemoryPermissions) -> Seq<char> {
    match p {
        MemoryPermissions::Recorded { readable, writable, executable } => seq![
            if readable {
                'R'
            } else {
                '-'
            },
            if writable {
                'W'
            } else {
                '-'
            },
            if executable {
                'X'
            } else {
                '-'
            },
        ],
        MemoryPermissions::NotRecorded => "Not recorded"@,
    }
}

impl MemoryPermissions {
    /// `R`, `W` and `X` flags, or a note that the dump holds none.
    pub fn display(&self) -> (s: String)
        ensures
            s@ == permissions_text(*self),
    {
        match self {
            MemoryPermissions::Recorded { readable, writable, executable } => {
                let mut s = String::new();
                push_char(
                    &mut s,
                    if *readable {
                        'R'
                    } else {
                        '-'
                    },
                );
                push_char(
                    &mut s,
                    if *writable {
                        'W'
                    } else {
                        '-'
                    },
                );
                push_char(
                    &mut s,
                    if *executable {
                        'X'
                    } else {
                        '-'
                    },
                );
                assert(s@ =~= permissions_text(*self));
                s
            },
            MemoryPermissions::NotRecorded => string_from("Not recorded"),
        }
    }
}

#[derive(Clone, Debug)]
pub struct StreamRow {
    pub kind: String,
    pub size: u32,
    pub rva: u32,
}

// ---------------------------------------------------------------------------
// Virtual addresses
// ---------------------------------------------------------------------------

/// An address in the crashed process, or an unknown one.
#[derive(Clone, Copy, Debug, Default, PartialEq, Eq, Structural, PartialOrd, Ord)]
pub struct VirtualAddress(Option<u64>);

impl View for VirtualAddress {
    type V = Option<u64>;

    closed spec fn view(&self) -> Option<u64> {
        self.0
    }
}

/// The characters that `str::trim_start_matches("0x")` removes: every
/// leading `0x`.
pub open spec fn strip_hex_prefix(s: Seq<char>) -> Seq<char>
    decreases s.len(),
{
    if s.len() >= 2 && s[0] == '0' && s[1] == 'x' {
        strip_hex_prefix(s.skip(2))
    } else {
        s
    }
}

pub open spec fn is_hex_digit(c: char) -> bool {
    let u = c as u32;
    (48 <= u <= 57) || (97 <= u <= 102) || (65 <= u <= 70)
}

pub open spec fn hex_digit_value(c: char) -> nat {
    let u = c as u32;
    if 48 <= u <= 57 {
        (u - 48) as nat
    } else if 97 <= u <= 102 {
        (u - 87) as nat
    } else {
        (u - 55) as nat
    }
}

/// The number written by the hexadecimal digits `d`.
pub open spec fn hex_value(d: Seq<char>) -> nat
    decreases d.len(),
{
    if d.len() == 0 {
        0
    } else {
        hex_value(d.drop_last()) * 16 + hex_digit_value(d.last())
    }
}

pub open spec fn all_hex_digits(d: Seq<char>) -> bool {
    forall|i: int| 0 <= i < d.len() ==> is_hex_digit(#[trigger] d[i])
}

/// `u64::from_str_radix(t, 16)`: an optional `+`, then at least one hex
/// digit, and a value that fits in 64 bits.
pub open spec fn radix16(t: Seq<char>) -> Option<u64> {
    let d = if t.len() > 0 && t[0] == '+' {
        t.drop_first()
    } else {
        t
    };
    hex_number(d)
}

/// At least one hex digit, and a value that fits in 64 bits.
pub open spec fn hex_number(d: Seq<char>) -> Option<u64> {
    if d.len() == 0 || !all_hex_digits(d) || hex_value(d) > u64::MAX {
        None
    } else {
        Some(hex_value(d) as u64)
    }
}

/// The value of address text: surrounding whitespace is ignored, leading
/// `0x` prefixes are removed and the rest is read as hexadecimal.
pub open spec fn parse_address_text(s: Seq<char>) -> Option<u64> {
    radix16(strip_hex_prefix(trim(s)))
}

/// The display form of an address: `0x` and sixteen hex digits, or `—`.
pub open spec fn address_text(a: Option<u64>) -> Seq<char> {
    match a {
        Some(v) => "0x"@ + hex_pad(v as nat, 16),
        None => seq!['\u{2014}'],
    }
}

proof fn lemma_hex_value_prefix_monotone(d: Seq<char>, i: int)
    requires
        0 <= i <= d.len(),
    ensures
        hex_value(d.take(i)) <= hex_value(d),
    decreases d.len(),
{
    if i < d.len() {
        assert(d.drop_last().take(i) =~= d.take(i));
        lemma_hex_value_prefix_monotone(d.drop_last(), i);
    } else {
        assert(d.take(i) =~= d);
    }
}

proof fn lemma_hex_value_zeros(z: nat, d: Seq<char>)
    ensures
        hex_value(repeat('0', z) + d) == hex_value(d),
    decreases d.len(),
{
    if d.len() == 0 {
        lemma_hex_value_all_zero(z);
        assert(repeat('0', z) + d =~= repeat('0', z));
    } else {
        assert((repeat('0', z) + d).drop_last() =~= repeat('0', z) + d.drop_last());
        lemma_hex_value_zeros(z, d.drop_last());
    }
}

proof fn lemma_hex_value_all_zero(z: nat)
    ensures
        hex_value(repeat('0', z)) == 0,
    decreases z,
{
    if z > 0 {
        assert(repeat('0', z).drop_last() =~= repeat('0', (z - 1) as nat));
        lemma_hex_value_all_zero((z - 1) as nat);
    }
}

proof fn lemma_digit_char(d: int)
    requires
        0 <= d < 16,
    ensures
        is_hex_digit(digit_char(d)),
        hex_digit_value(digit_char(d)) == d,
        digit_char(d) != 'x',
        !is_space(digit_char(d)),
{
    if d < 10 {
        assert(((d + 48) as char) as u32 == d + 48);
    } else {
        assert(((d + 87) as char) as u32 == d + 87);
    }
}

proof fn lemma_hex_roundtrip(n: nat)
    ensures
        hex_value(hex(n)) == n,
        all_hex_digits(hex(n)),
        hex(n).len() >= 1,
        hex(n)[0] != 'x',
        !is_space(hex(n).last()),
    decreases n,
{
    if n >= 16 {
        lemma_hex_roundtrip(n / 16);
        lemma_digit_char((n % 16) as int);
        assert(hex(n).drop_last() =~= hex(n / 16));
        assert(hex(n).last() == digit_char((n % 16) as int));
        assert(n == (n / 16) * 16 + n % 16);
        assert(hex_value(hex(n)) == hex_value(hex(n / 16)) * 16 + (n % 16));
        assert(hex(n)[0] == hex(n / 16)[0]);
        assert forall|i: int| 0 <= i < hex(n).len() implies is_hex_digit(#[trigger] hex(n)[i]) by {
            if i < hex(n).len() - 1 {
                assert(hex(n)[i] == hex(n / 16)[i]);
            }
        }
    } else {
        lemma_digit_char(n as int);
        assert(hex(n).drop_last() =~= Seq::<char>::empty());
        assert(hex_value(hex(n)) == hex_value(Seq::<char>::empty()) * 16 + n);
    }
}

/// Rendering an address and reading the text back gives the same address.
pub proof fn lemma_address_text_roundtrip(v: u64)
    ensures
        parse_address_text(address_text(Some(v))) == Some(v),
{
    let digits = hex_pad(v as nat, 16);
    lemma_hex_roundtrip(v as nat);
    assert(power(16, 16) == 0x1_0000_0000_0000_0000) by {
        reveal_with_fuel(power, 17);
    }
    lemma_hex_len(v as nat, 16);
    let z = (16 - hex(v as nat).len()) as nat;
    assert(digits =~= repeat('0', z) + hex(v as nat));
    lemma_hex_value_zeros(z, hex(v as nat));
    assert(all_hex_digits(digits)) by {
        assert forall|i: int| 0 <= i < digits.len() implies is_hex_digit(#[trigger] digits[i]) by {
            if i >= z {
                assert(digits[i] == hex(v as nat)[i - z]);
            }
        }
    }
    reveal_strlit("0x");
    let text = "0x"@ + digits;
    assert(text.len() == 18);
    assert(text[0] == '0');
    assert(!is_space(text[0]));
    assert(trim_start(text) == text);
    assert(!is_space(text.last())) by {
        assert(text.last() == digits[15]);
        assert(digits[15] == hex(v as nat).last());
    }
    assert(trim_end(text) == text);
    assert(text.skip(2) =~= digits);
    assert(digits.len() == 16);
    assert(digits[1] != 'x') by {
        if z >= 2 {
        } else {
            assert(digits[1] == hex(v as nat)[1 - z]);
        }
    }
    assert(strip_hex_prefix(digits) == digits);
    assert(strip_hex_prefix(text) == digits);
}

impl VirtualAddress {
    /// A known address.
    pub fn new(value: u64) -> (a: Self)
        ensures
            a@ == Some(value),
    {
        VirtualAddress(Some(value))
    }

    /// An address that the dump does not record.
    pub fn unknown() -> (a: Self)
        ensures
            a@ is None,
    {
        VirtualAddress(None)
    }

    /// The numeric value, when known.
    pub fn value(self) -> (v: Option<u64>)
        ensures
            v == self@,
    {
        self.0
    }

    /// `0x` and sixteen lower-case hex digits, or `—` when unknown.
    pub fn display(&self) -> (s: String)
        ensures
            s@ == address_text(self@),
    {
        let mut s = String::new();
        match self.0 {
            Some(v) => {
                push_str(&mut s, "0x");
                push_hex_pad(&mut s, v, 16);
            },
            None => {
                push_str(&mut s, "\u{2014}");
            },
        }
        proof {
            reveal_strlit("0x");
            reveal_strlit("\u{2014}");
        }
        assert(s@ =~= address_text(self@));
        s
    }

    /// Reads address text: whitespace around it is ignored, leading `0x`
    /// prefixes are removed and the rest must be a 64-bit hexadecimal number
    /// with an optional `+` sign.
    pub fn parse(value: &str) -> (r: Option<u64>)
        ensures
            r == parse_address_text(value@),
    {
        let t = trim_of(value);
        let n = t.len();
        let mut i: usize = 0;
        proof {
            assert(t@.skip(0) =~= t@);
        }
        while n >= 2 && i <= n - 2 && t[i] == '0' && t[i + 1] == 'x'
            invariant
                n == t@.len(),
                i <= n,
                strip_hex_prefix(t@) == strip_hex_prefix(t@.skip(i as int)),
            decreases n - i,
        {
            assert(t@.skip(i as int).skip(2) =~= t@.skip(i + 2));
            i = i + 2;
        }
        let ghost body = t@.skip(i as int);
        assert(strip_hex_prefix(body) == body);
        if i < n && t[i] == '+' {
            i = i + 1;
        }
        let ghost digits = t@.skip(i as int);
        assert(radix16(body) == hex_number(digits)) by {
            if body.len() > 0 && body[0] == '+' {
                assert(body.drop_first() =~= digits);
            } else {
                assert(body =~= digits);
            }
        }
        if i == n {
            return None;
        }
        let start = i;
        let mut acc: u64 = 0;
        while i < n
            invariant
                n == t@.len(),
                start <= i <= n,
                digits == t@.skip(start as int),
                parse_address_text(value@) == hex_number(digits),
                all_hex_digits(t@.subrange(start as int, i as int)),
                acc == hex_value(t@.subrange(start as int, i as int)),
            decreases n - i,
        {
            let c: char = t[i];
            let u: u32 = c as u32;
            assert(digits[i - start] == c);
            let d: u64 = if 48 <= u && u <= 57 {
                (u - 48) as u64
            } else if 97 <= u && u <= 102 {
                (u - 87) as u64
            } else if 65 <= u && u <= 70 {
                (u - 55) as u64
            } else {
                assert(!is_hex_digit(digits[i - start]));
                assert(!all_hex_digits(digits));
                return None;
            };
            let ghost prefix = t@.subrange(start as int, i + 1);
            assert(prefix.drop_last() =~= t@.subrange(start as int, i as int));
            assert(prefix =~= digits.take(i + 1 - start));
            assert(hex_digit_value(c) == d);
            assert(prefix.last() == c);
            assert(hex_value(prefix) == acc * 16 + d);
            if acc > (u64::MAX - d) / 16 {
                assert(hex_value(prefix) > u64::MAX) by (nonlinear_arith)
                    requires
                        hex_value(prefix) == acc * 16 + d,
                        acc > (u64::MAX - d) / 16,
                        d <= 15,
                ;
                proof {
                    lemma_hex_value_prefix_monotone(digits, i + 1 - start);
                }
                return None;
            }
            assert(acc * 16 + d <= u64::MAX) by (nonlinear_arith)
                requires
                    acc <= (u64::MAX - d) / 16,
                    d <= 15,
            ;
            acc = acc * 16 + d;
            i = i + 1;
            assert forall|k: int| 0 <= k < prefix.len() implies is_hex_digit(#[trigger] prefix[k]) by {
                if k < prefix.len() - 1 {
                    assert(prefix[k] == t@.subrange(start as int, i - 1)[k]);
                }
            }
        }
        assert(t@.subrange(start as int, n as int) =~= digits);
        Some(acc)
    }
}

impl<'a> From<&'a str> for VirtualAddress {
    /// Address text that does not parse becomes the unknown address.
    fn from(value: &'a str) -> (a: Self) {
        VirtualAddress(VirtualAddress::parse(value))
    }
}

impl<'a> vstd::std_specs::convert::FromSpecImpl<&'a str> for VirtualAddress {
    open spec fn obeys_from_spec() -> bool {
        true
    }

    closed spec fn from_spec(value: &'a str) -> Self {
        VirtualAddress(parse_address_text(value@))
    }
}

impl From<String> for VirtualAddress {
    fn from(value: String) -> (a: Self) {
        VirtualAddress(VirtualAddress::parse(value.as_str()))
    }
}

impl vstd::std_specs::convert::FromSpecImpl<String> for VirtualAddress {
    open spec fn obeys_from_spec() -> bool {
        true
    }

    closed spec fn from_spec(value: String) -> Self {
        VirtualAddress(parse_address_text(value@))
    }
}

impl VirtualAddress {
    /// `From<&str>`: unparsable text gives the unknown address.
    pub fn from_text(value: &str) -> (a: Self)
        ensures
            a@ == parse_address_text(value@),
    {
        VirtualAddress(VirtualAddress::parse(value))
    }
}

// ---------------------------------------------------------------------------
// The crashed thread
// ---------------------------------------------------------------------------

/// Index of the first thread marked as crashed.
pub open spec fn first_crashed(threads: Seq<ThreadRow>) -> Option<int>
    decreases threads.len(),
{
    if threads.len() == 0 {
        None
    } else if threads[0].crashed {
        Some(0)
    } else {
        match first_crashed(threads.drop_first()) {
            Some(i) => Some(i + 1),
            None => None,
        }
    }
}

pub proof fn lemma_first_crashed_found(s: Seq<ThreadRow>, i: int)
    requires
        0 <= i < s.len(),
        s[i].crashed,
        forall|k: int| 0 <= k < i ==> !(#[trigger] s[k]).crashed,
    ensures
        first_crashed(s) == Some(i),
    decreases i,
{
    if i > 0 {
        lemma_first_crashed_found(s.drop_first(), i - 1);
    }
}

pub proof fn lemma_first_crashed_none(s: Seq<ThreadRow>)
    requires
        forall|k: int| 0 <= k < s.len() ==> !(#[trigger] s[k]).crashed,
    ensures
        first_crashed(s) is None,
    decreases s.len(),
{
    if s.len() > 0 {
        lemma_first_crashed_none(s.drop_first());
    }
}

pub proof fn lemma_first_crashed_is_crashed(s: Seq<ThreadRow>)
    requires
        first_crashed(s) is Some,
    ensures
        0 <= first_crashed(s)->0 < s.len(),
        s[first_crashed(s)->0].crashed,
        forall|k: int| 0 <= k < first_crashed(s)->0 ==> !(#[trigger] s[k]).crashed,
    decreases s.len(),
{
    if !s[0].crashed {
        lemma_first_crashed_is_crashed(s.drop_first());
        let j = first_crashed(s.drop_first())->0;
        assert forall|k: int| 0 <= k < j + 1 implies !(#[trigger] s[k]).crashed by {
            if k > 0 {
                assert(s[k] == s.drop_first()[k - 1]);
            }
        }
    }
}

/// Index of the first crashed thread of the report.
pub fn crashed_thread_index(report: &DumpReport) -> (r: Option<usize>)
    ensures
        match r {
            Some(i) => first_crashed(report.threads@) == Some(i as int) && i
                < report.threads@.len(),
            None => first_crashed(report.threads@) is None,
        },
{
    let n = report.threads.len();
    let mut i: usize = 0;
    while i < n
        invariant
            n == report.threads@.len(),
            i <= n,
            forall|k: int| 0 <= k < i ==> !(#[trigger] report.threads@[k]).crashed,
        decreases n - i,
    {
        if report.threads[i].crashed {
            proof {
                lemma_first_crashed_found(report.threads@, i as int);
            }
            return Some(i);
        }
        i = i + 1;
    }
    proof {
        lemma_first_crashed_none(report.threads@);
    }
    None
}

} // verus!
