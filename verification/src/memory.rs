//! Deterministic analysis of bytes actually captured in a minidump.
//!
//! This is evidence analysis, not heap reconstruction. Ordinary minidumps often
//! omit allocator metadata and much of the address space, so results are limited
//! to recorded regions, stacks, modules, and registers.

use crate::report::{
    address_text, parse_address_text, pointer_bytes, DumpReport, MemoryRow, ModuleRow, ThreadRow,
    VirtualAddress,
};
use crate::text::{
    chars_of, dec, file_name_or_empty, first_n, file_name_string, lower, lower_chars, push_char, push_dec,
    push_str, string_from, trim, trim_of, views,
};
use vstd::prelude::*;

verus! {

broadcast use vstd::string::group_string_axioms;

/// A pointer-sized value decoded from a captured memory region.
#[derive(Clone, Debug, PartialEq, Eq)]
pub struct DecodedPointer {
    pub address: u64,
    pub value: u64,
    pub target: AddressTarget,
    pub chain: Vec<u64>,
}

/// A crashed-frame register related to known dump data.
#[derive(Clone, Debug, PartialEq, Eq)]
pub struct RegisterFinding {
    pub register: String,
    pub value: String,
    pub target: RegisterTarget,
    pub suspicious: bool,
}

/// The strongest known owner of an address found in captured memory.
#[derive(Clone, Debug, PartialEq, Eq, PartialOrd, Ord)]
pub enum AddressTarget {
    Null,
    ThreadStack { thread_id: u32 },
    Module { name: String, offset: u64 },
    CapturedRegion { start: VirtualAddress },
}

/// The mathematical value of an [`AddressTarget`].
pub enum TargetView {
    Null,
    ThreadStack(u32),
    Module(Seq<char>, u64),
    CapturedRegion(Option<u64>),
}

impl View for AddressTarget {
    type V = TargetView;

    open spec fn view(&self) -> TargetView {
        match self {
            AddressTarget::Null => TargetView::Null,
            AddressTarget::ThreadStack { thread_id } => TargetView::ThreadStack(*thread_id),
            AddressTarget::Module { name, offset } => TargetView::Module(name@, *offset),
            AddressTarget::CapturedRegion { start } => TargetView::CapturedRegion(start@),
        }
    }
}

pub open spec fn target_text(t: TargetView) -> Seq<char> {
    match t {
        TargetView::Null => "NULL pointer"@,
        TargetView::ThreadStack(id) => "thread "@ + dec(id as nat) + " stack"@,
        TargetView::Module(name, offset) => name + " + 0x"@ + crate::text::hex(offset as nat),
        TargetView::CapturedRegion(start) => "captured region "@ + address_text(start),
    }
}

impl AddressTarget {
    /// Human-readable description of the owner.
    pub fn display(&self) -> (s: String)
        ensures
            s@ == target_text(self@),
    {
        let mut s = String::new();
        match self {
            AddressTarget::Null => push_str(&mut s, "NULL pointer"),
            AddressTarget::ThreadStack { thread_id } => {
                push_str(&mut s, "thread ");
                push_dec(&mut s, *thread_id as u64);
                push_str(&mut s, " stack");
            },
            AddressTarget::Module { name, offset } => {
                push_str(&mut s, name.as_str());
                push_str(&mut s, " + 0x");
                crate::text::push_hex(&mut s, *offset);
            },
            AddressTarget::CapturedRegion { start } => {
                push_str(&mut s, "captured region ");
                let a = start.display();
                push_str(&mut s, a.as_str());
            },
        }
        assert(s@ =~= target_text(self@));
        s
    }
}

#[derive(Clone, Debug, PartialEq, Eq)]
pub enum RegisterTarget {
    Known(AddressTarget),
    Unmapped,
    Invalid,
}

pub enum RegisterTargetView {
    Known(TargetView),
    Unmapped,
    Invalid,
}

impl View for RegisterTarget {
    type V = RegisterTargetView;

    open spec fn view(&self) -> RegisterTargetView {
        match self {
            RegisterTarget::Known(t) => RegisterTargetView::Known(t@),
            RegisterTarget::Unmapped => RegisterTargetView::Unmapped,
            RegisterTarget::Invalid => RegisterTargetView::Invalid,
        }
    }
}

pub open spec fn register_target_text(t: RegisterTargetView) -> Seq<char> {
    match t {
        RegisterTargetView::Known(target) => target_text(target),
        RegisterTargetView::Unmapped => "Not mapped in captured memory or modules"@,
        RegisterTargetView::Invalid => "Not a hexadecimal address"@,
    }
}

impl RegisterTarget {
    /// Human-readable description of what a register points at.
    pub fn display(&self) -> (s: String)
        ensures
            s@ == register_target_text(self@),
    {
        match self {
            RegisterTarget::Known(target) => target.display(),
            RegisterTarget::Unmapped => string_from("Not mapped in captured memory or modules"),
            RegisterTarget::Invalid => string_from("Not a hexadecimal address"),
        }
    }
}

// ---------------------------------------------------------------------------
// Address input
// ---------------------------------------------------------------------------

/// Input accepted by address-analysis helpers.
///
/// New domain code should use `VirtualAddress`; string implementations remain
/// for values originating in third-party processor output.
pub trait AddressInput {
    spec fn address_value(&self) -> Option<u64>;

    fn address(self) -> (r: Option<u64>)
        ensures
            r == self.address_value(),
    ;
}

impl<'a> AddressInput for &'a str {
    open spec fn address_value(&self) -> Option<u64> {
        parse_address_text((**self)@)
    }

    fn address(self) -> (r: Option<u64>) {
        VirtualAddress::parse(self)
    }
}

impl<'a> AddressInput for &'a String {
    open spec fn address_value(&self) -> Option<u64> {
        parse_address_text((**self)@)
    }

    fn address(self) -> (r: Option<u64>) {
        VirtualAddress::parse(self.as_str())
    }
}

impl<'a> AddressInput for &'a VirtualAddress {
    open spec fn address_value(&self) -> Option<u64> {
        (**self)@
    }

    fn address(self) -> (r: Option<u64>) {
        self.value()
    }
}

/// The numeric address held by `value`, when it has one.
pub fn parse_address<A: AddressInput>(value: A) -> (r: Option<u64>)
    ensures
        r == value.address_value(),
{
    value.address()
}

// ---------------------------------------------------------------------------
// Ranges
// ---------------------------------------------------------------------------

pub open spec fn sat_add(a: u64, b: u64) -> int {
    if a + b > u64::MAX {
        u64::MAX as int
    } else {
        a + b
    }
}

/// The region is known and `address` lies in `[start, start + size)`, where
/// the end saturates at `u64::MAX`.
pub open spec fn region_contains(region: MemoryRow, address: Option<u64>) -> bool {
    match (region.start@, address) {
        (Some(start), Some(a)) => start <= a && a < sat_add(start, region.size),
        _ => false,
    }
}

/// Both ranges are known and intersect (ends saturate at `u64::MAX`).
pub open spec fn overlaps(region: MemoryRow, other_start: Option<u64>, other_size: u64) -> bool {
    match (region.start@, other_start) {
        (Some(start), Some(other)) => start < sat_add(other, other_size) && other < sat_add(
            start,
            region.size,
        ),
        _ => false,
    }
}

fn saturating(a: u64, b: u64) -> (r: u64)
    ensures
        r == sat_add(a, b),
{
    if a > u64::MAX - b {
        u64::MAX
    } else {
        a + b
    }
}

/// Whether the captured region holds `address`.
pub fn contains(region: &MemoryRow, address: Option<u64>) -> (b: bool)
    ensures
        b == region_contains(*region, address),
{
    let Some(start) = parse_address(&region.start) else {
        return false;
    };
    match address {
        Some(a) => a >= start && a < saturating(start, region.size),
        None => false,
    }
}

fn ranges_overlap(region: &MemoryRow, other_start: Option<u64>, other_size: u64) -> (b: bool)
    ensures
        b == overlaps(*region, other_start, other_size),
{
    match (parse_address(&region.start), other_start) {
        (Some(start), Some(other)) => start < saturating(other, other_size) && other < saturating(
            start,
            region.size,
        ),
        _ => false,
    }
}

// ---------------------------------------------------------------------------
// Region roles
// ---------------------------------------------------------------------------

pub open spec fn thread_role(t: ThreadRow) -> Seq<char> {
    "Stack for thread "@ + dec(t.id as nat) + (if t.crashed {
        " (crashed)"@
    } else {
        Seq::empty()
    })
}

pub open spec fn thread_roles(threads: Seq<ThreadRow>, region: MemoryRow) -> Seq<Seq<char>>
    decreases threads.len(),
{
    if threads.len() == 0 {
        Seq::empty()
    } else {
        let rest = thread_roles(threads.drop_last(), region);
        let t = threads.last();
        if overlaps(region, t.stack_start@, t.stack_size) {
            rest.push(thread_role(t))
        } else {
            rest
        }
    }
}

pub open spec fn module_roles(modules: Seq<ModuleRow>, region: MemoryRow) -> Seq<Seq<char>>
    decreases modules.len(),
{
    if modules.len() == 0 {
        Seq::empty()
    } else {
        let rest = module_roles(modules.drop_last(), region);
        let m = modules.last();
        if overlaps(region, m.base@, m.size) {
            rest.push("Mapped to module "@ + m.name@)
        } else {
            rest
        }
    }
}

/// What the region is to the crash: it holds the fault address, it overlaps
/// a thread's stack, it overlaps a module image; in that order.
pub open spec fn roles_of(report: DumpReport, region: MemoryRow) -> Seq<Seq<char>> {
    (if region_contains(region, report.crash_address@) {
        seq!["Contains fault address"@]
    } else {
        Seq::empty()
    }) + thread_roles(report.threads@, region) + module_roles(report.modules@, region)
}

/// Labels that relate a captured region to the fault address, thread stacks
/// and module images.
pub fn region_roles(report: &DumpReport, region: &MemoryRow) -> (roles: Vec<String>)
    ensures
        views(roles@) == roles_of(*report, *region),
{
    let mut roles: Vec<String> = Vec::new();
    if contains(region, parse_address(&report.crash_address)) {
        roles.push(string_from("Contains fault address"));
    }
    let ghost base = views(roles@);
    assert(base == (if region_contains(*region, report.crash_address@) {
        seq!["Contains fault address"@]
    } else {
        Seq::empty()
    })) by {
        if region_contains(*region, report.crash_address@) {
            assert(base =~= seq!["Contains fault address"@]);
        } else {
            assert(base =~= Seq::empty());
        }
    }
    let n = report.threads.len();
    let mut i: usize = 0;
    while i < n
        invariant
            n == report.threads@.len(),
            i <= n,
            views(roles@) == base + thread_roles(report.threads@.take(i as int), *region),
        decreases n - i,
    {
        let thread = &report.threads[i];
        proof {
            assert(report.threads@.take(i + 1).drop_last() =~= report.threads@.take(i as int));
        }
        if ranges_overlap(region, parse_address(&thread.stack_start), thread.stack_size) {
            let mut role = string_from("Stack for thread ");
            push_dec(&mut role, thread.id as u64);
            if thread.crashed {
                push_str(&mut role, " (crashed)");
            }
            assert(role@ =~= thread_role(*thread));
            let ghost before = views(roles@);
            roles.push(role);
            assert(views(roles@) =~= before.push(thread_role(report.threads@[i as int])));
            assert(report.threads@.take(i + 1).last() == report.threads@[i as int]);
            assert(thread_roles(report.threads@.take(i + 1), *region) == thread_roles(
                report.threads@.take(i as int),
                *region,
            ).push(thread_role(report.threads@[i as int])));
            assert(views(roles@) =~= base + thread_roles(report.threads@.take(i + 1), *region));
        } else {
            assert(report.threads@.take(i + 1).last() == report.threads@[i as int]);
            assert(views(roles@) =~= base + thread_roles(report.threads@.take(i + 1), *region));
        }
        i = i + 1;
    }
    assert(report.threads@.take(n as int) =~= report.threads@);
    let ghost base2 = views(roles@);
    let m = report.modules.len();
    let mut j: usize = 0;
    while j < m
        invariant
            m == report.modules@.len(),
            j <= m,
            views(roles@) == base2 + module_roles(report.modules@.take(j as int), *region),
        decreases m - j,
    {
        let module = &report.modules[j];
        proof {
            assert(report.modules@.take(j + 1).drop_last() =~= report.modules@.take(j as int));
        }
        if ranges_overlap(region, parse_address(&module.base), module.size) {
            let mut role = string_from("Mapped to module ");
            push_str(&mut role, module.name.as_str());
            let ghost before = views(roles@);
            roles.push(role);
            assert(views(roles@) =~= before.push("Mapped to module "@ + module.name@));
            assert(report.modules@.take(j + 1).last() == report.modules@[j as int]);
            assert(views(roles@) =~= base2 + module_roles(report.modules@.take(j + 1), *region));
        } else {
            assert(report.modules@.take(j + 1).last() == report.modules@[j as int]);
            assert(views(roles@) =~= base2 + module_roles(report.modules@.take(j + 1), *region));
        }
        j = j + 1;
    }
    assert(report.modules@.take(m as int) =~= report.modules@);
    assert(views(roles@) =~= roles_of(*report, *region));
    roles
}

// ---------------------------------------------------------------------------
// Address classification
// ---------------------------------------------------------------------------

pub open spec fn in_stack(t: ThreadRow, address: u64) -> bool {
    match t.stack_start@ {
        Some(start) => start <= address && address < sat_add(start, t.stack_size),
        None => false,
    }
}

pub open spec fn in_module(m: ModuleRow, address: u64) -> bool {
    match m.base@ {
        Some(base) => base <= address && address < sat_add(base, m.size),
        None => false,
    }
}

/// Index of the first thread whose stack holds `address`.
pub open spec fn first_stack(threads: Seq<ThreadRow>, address: u64) -> Option<int>
    decreases threads.len(),
{
    if threads.len() == 0 {
        None
    } else if in_stack(threads[0], address) {
        Some(0)
    } else {
        match first_stack(threads.drop_first(), address) {
            Some(i) => Some(i + 1),
            None => None,
        }
    }
}

/// Index of the first module whose image holds `address`.
pub open spec fn first_module(modules: Seq<ModuleRow>, address: u64) -> Option<int>
    decreases modules.len(),
{
    if modules.len() == 0 {
        None
    } else if in_module(modules[0], address) {
        Some(0)
    } else {
        match first_module(modules.drop_first(), address) {
            Some(i) => Some(i + 1),
            None => None,
        }
    }
}

/// Index of the first captured region that holds `address`.
pub open spec fn first_region(memory: Seq<MemoryRow>, address: u64) -> Option<int>
    decreases memory.len(),
{
    if memory.len() == 0 {
        None
    } else if region_contains(memory[0], Some(address)) {
        Some(0)
    } else {
        match first_region(memory.drop_first(), address) {
            Some(i) => Some(i + 1),
            None => None,
        }
    }
}

/// The owner of an address: null, else the first thread stack holding it,
/// else the first module image holding it (named by its file name, with the
/// offset from the image base), else the first captured region holding it.
pub open spec fn classify(report: DumpReport, address: u64) -> Option<TargetView> {
    if address == 0 {
        Some(TargetView::Null)
    } else {
        match first_stack(report.threads@, address) {
            Some(i) => Some(TargetView::ThreadStack(report.threads@[i].id)),
            None => match first_module(report.modules@, address) {
                Some(i) => Some(
                    TargetView::Module(
                        file_name_or_empty(report.modules@[i].name@),
                        (address - report.modules@[i].base@->0) as u64,
                    ),
                ),
                None => match first_region(report.memory@, address) {
                    Some(i) => Some(TargetView::CapturedRegion(report.memory@[i].start@)),
                    None => None,
                },
            },
        }
    }
}

pub open spec fn target_opt_view(t: Option<AddressTarget>) -> Option<TargetView> {
    match t {
        Some(t) => Some(t@),
        None => None,
    }
}

proof fn lemma_first_stack_found(s: Seq<ThreadRow>, a: u64, i: int)
    requires
        0 <= i < s.len(),
        in_stack(s[i], a),
        forall|k: int| 0 <= k < i ==> !in_stack(#[trigger] s[k], a),
    ensures
        first_stack(s, a) == Some(i),
    decreases i,
{
    if i > 0 {
        lemma_first_stack_found(s.drop_first(), a, i - 1);
    }
}

proof fn lemma_first_stack_none(s: Seq<ThreadRow>, a: u64)
    requires
        forall|k: int| 0 <= k < s.len() ==> !in_stack(#[trigger] s[k], a),
    ensures
        first_stack(s, a) is None,
    decreases s.len(),
{
    if s.len() > 0 {
        lemma_first_stack_none(s.drop_first(), a);
    }
}

proof fn lemma_first_module_found(s: Seq<ModuleRow>, a: u64, i: int)
    requires
        0 <= i < s.len(),
        in_module(s[i], a),
        forall|k: int| 0 <= k < i ==> !in_module(#[trigger] s[k], a),
    ensures
        first_module(s, a) == Some(i),
    decreases i,
{
    if i > 0 {
        lemma_first_module_found(s.drop_first(), a, i - 1);
    }
}

proof fn lemma_first_module_none(s: Seq<ModuleRow>, a: u64)
    requires
        forall|k: int| 0 <= k < s.len() ==> !in_module(#[trigger] s[k], a),
    ensures
        first_module(s, a) is None,
    decreases s.len(),
{
    if s.len() > 0 {
        lemma_first_module_none(s.drop_first(), a);
    }
}

proof fn lemma_first_region_found(s: Seq<MemoryRow>, a: u64, i: int)
    requires
        0 <= i < s.len(),
        region_contains(s[i], Some(a)),
        forall|k: int| 0 <= k < i ==> !region_contains(#[trigger] s[k], Some(a)),
    ensures
        first_region(s, a) == Some(i),
    decreases i,
{
    if i > 0 {
        lemma_first_region_found(s.drop_first(), a, i - 1);
    }
}

proof fn lemma_first_region_none(s: Seq<MemoryRow>, a: u64)
    requires
        forall|k: int| 0 <= k < s.len() ==> !region_contains(#[trigger] s[k], Some(a)),
    ensures
        first_region(s, a) is None,
    decreases s.len(),
{
    if s.len() > 0 {
        lemma_first_region_none(s.drop_first(), a);
    }
}

proof fn lemma_first_stack_some(s: Seq<ThreadRow>, a: u64)
    ensures
        first_stack(s, a) matches Some(i) ==> 0 <= i < s.len() && in_stack(s[i], a) && forall|k: int|
            0 <= k < i ==> !in_stack(#[trigger] s[k], a),
        first_stack(s, a) is None ==> forall|k: int| 0 <= k < s.len() ==> !in_stack(#[trigger] s[k], a),
    decreases s.len(),
{
    if s.len() > 0 {
        lemma_first_stack_some(s.drop_first(), a);
        assert forall|k: int| 1 <= k < s.len() implies s[k] == s.drop_first()[k - 1] by {}
    }
}

proof fn lemma_first_module_some(s: Seq<ModuleRow>, a: u64)
    ensures
        first_module(s, a) matches Some(i) ==> 0 <= i < s.len() && in_module(s[i], a) && forall|k: int|
            0 <= k < i ==> !in_module(#[trigger] s[k], a),
        first_module(s, a) is None ==> forall|k: int| 0 <= k < s.len() ==> !in_module(#[trigger] s[k], a),
    decreases s.len(),
{
    if s.len() > 0 {
        lemma_first_module_some(s.drop_first(), a);
        assert forall|k: int| 1 <= k < s.len() implies s[k] == s.drop_first()[k - 1] by {}
    }
}

proof fn lemma_first_region_some(s: Seq<MemoryRow>, a: u64)
    ensures
        first_region(s, a) matches Some(i) ==> 0 <= i < s.len() && region_contains(s[i], Some(a))
            && forall|k: int| 0 <= k < i ==> !region_contains(#[trigger] s[k], Some(a)),
        first_region(s, a) is None ==> forall|k: int|
            0 <= k < s.len() ==> !region_contains(#[trigger] s[k], Some(a)),
    decreases s.len(),
{
    if s.len() > 0 {
        lemma_first_region_some(s.drop_first(), a);
        assert forall|k: int| 1 <= k < s.len() implies s[k] == s.drop_first()[k - 1] by {}
    }
}

/// What an address is classified as: null exactly for address zero; a thread
/// stack only for the first thread whose captured stack holds the address,
/// and one whenever some stack does; a module only for the first module whose
/// image holds the address, named by its file name, with the offset that
/// added to the image base gives the address (so it is below the image size),
/// and one whenever some image holds the address and no stack does; a
/// captured region only for the first region holding the address; and nothing
/// only when no stack, image or region holds a non-null address.
pub proof fn lemma_classify_owner(report: DumpReport, address: u64)
    ensures
        (classify(report, address) == Some(TargetView::Null)) == (address == 0),
        classify(report, address) matches Some(TargetView::ThreadStack(id)) ==> exists|i: int|
            0 <= i < report.threads@.len() && (#[trigger] report.threads@[i]).id == id && in_stack(
                report.threads@[i],
                address,
            ) && forall|k: int| 0 <= k < i ==> !in_stack(#[trigger] report.threads@[k], address),
        address != 0 && (exists|i: int|
            0 <= i < report.threads@.len() && in_stack(#[trigger] report.threads@[i], address))
            ==> classify(report, address) is Some && classify(report, address)->0 is ThreadStack,
        classify(report, address) matches Some(TargetView::Module(name, offset)) ==> exists|i: int|
            0 <= i < report.modules@.len() && (#[trigger] report.modules@[i]).base@ is Some
                && report.modules@[i].base@->0 + offset == address && offset
                < report.modules@[i].size && name == file_name_or_empty(report.modules@[i].name@)
                && forall|k: int| 0 <= k < i ==> !in_module(#[trigger] report.modules@[k], address),
        address != 0 && (forall|i: int|
            0 <= i < report.threads@.len() ==> !in_stack(#[trigger] report.threads@[i], address))
            && (exists|i: int|
            0 <= i < report.modules@.len() && in_module(#[trigger] report.modules@[i], address))
            ==> classify(report, address) is Some && classify(report, address)->0 is Module,
        classify(report, address) matches Some(TargetView::CapturedRegion(start)) ==> exists|i: int|
            0 <= i < report.memory@.len() && region_contains(
                #[trigger] report.memory@[i],
                Some(address),
            ) && report.memory@[i].start@ == start && forall|k: int|
                0 <= k < i ==> !region_contains(#[trigger] report.memory@[k], Some(address)),
        classify(report, address) is None ==> address != 0 && (forall|i: int|
            0 <= i < report.threads@.len() ==> !in_stack(#[trigger] report.threads@[i], address))
            && (forall|i: int|
            0 <= i < report.modules@.len() ==> !in_module(#[trigger] report.modules@[i], address))
            && (forall|i: int|
            0 <= i < report.memory@.len() ==> !region_contains(
                #[trigger] report.memory@[i],
                Some(address),
            )),
{
    lemma_first_stack_some(report.threads@, address);
    lemma_first_module_some(report.modules@, address);
    lemma_first_region_some(report.memory@, address);
    if address != 0 {
        if let Some(i) = first_module(report.modules@, address) {
            if first_stack(report.threads@, address) is None {
                let m = report.modules@[i];
                let base = m.base@->0;
                assert(base <= address && address < sat_add(base, m.size));
                assert(base + ((address - base) as u64) == address);
            }
        }
    }
}

/// Index of the first captured region holding `address`.
fn find_region(memory: &Vec<MemoryRow>, address: u64) -> (r: Option<usize>)
    ensures
        match r {
            Some(i) => first_region(memory@, address) == Some(i as int) && i < memory@.len(),
            None => first_region(memory@, address) is None,
        },
{
    let n = memory.len();
    let mut i: usize = 0;
    while i < n
        invariant
            n == memory@.len(),
            i <= n,
            forall|k: int| 0 <= k < i ==> !region_contains(#[trigger] memory@[k], Some(address)),
        decreases n - i,
    {
        if contains(&memory[i], Some(address)) {
            proof {
                lemma_first_region_found(memory@, address, i as int);
            }
            return Some(i);
        }
        i = i + 1;
    }
    proof {
        lemma_first_region_none(memory@, address);
    }
    None
}

/// The strongest known owner of `address` in the report.
pub fn classify_address(report: &DumpReport, address: u64) -> (r: Option<AddressTarget>)
    ensures
        target_opt_view(r) == classify(*report, address),
{
    if address == 0 {
        return Some(AddressTarget::Null);
    }
    let n = report.threads.len();
    let mut i: usize = 0;
    while i < n
        invariant
            n == report.threads@.len(),
            i <= n,
            address != 0,
            forall|k: int| 0 <= k < i ==> !in_stack(#[trigger] report.threads@[k], address),
        decreases n - i,
    {
        let thread = &report.threads[i];
        if let Some(start) = parse_address(&thread.stack_start) {
            if start <= address && address < saturating(start, thread.stack_size) {
                proof {
                    assert(in_stack(report.threads@[i as int], address));
                    lemma_first_stack_found(report.threads@, address, i as int);
                    assert(classify(*report, address) == Some(
                        TargetView::ThreadStack(report.threads@[i as int].id),
                    ));
                }
                let r = Some(AddressTarget::ThreadStack { thread_id: thread.id });
                assert(target_opt_view(r) == Some(TargetView::ThreadStack(thread.id)));
                return r;
            }
        }
        i = i + 1;
    }
    proof {
        lemma_first_stack_none(report.threads@, address);
    }
    let m = report.modules.len();
    let mut j: usize = 0;
    while j < m
        invariant
            m == report.modules@.len(),
            j <= m,
            address != 0,
            first_stack(report.threads@, address) is None,
            forall|k: int| 0 <= k < j ==> !in_module(#[trigger] report.modules@[k], address),
        decreases m - j,
    {
        let module = &report.modules[j];
        if let Some(base) = parse_address(&module.base) {
            if base <= address && address < saturating(base, module.size) {
                proof {
                    lemma_first_module_found(report.modules@, address, j as int);
                }
                let name = file_name_string(module.name.as_str());
                let r = Some(AddressTarget::Module { name, offset: address - base });
                assert(classify(*report, address) == Some(
                    TargetView::Module(file_name_or_empty(module.name@), (address - base) as u64),
                ));
                assert(target_opt_view(r) == Some(
                    TargetView::Module(file_name_or_empty(module.name@), (address - base) as u64),
                ));
                return r;
            }
        }
        j = j + 1;
    }
    proof {
        lemma_first_module_none(report.modules@, address);
    }
    match find_region(&report.memory, address) {
        Some(k) => Some(AddressTarget::CapturedRegion { start: report.memory[k].start }),
        None => None,
    }
}

// ---------------------------------------------------------------------------
// Pointer decoding
// ---------------------------------------------------------------------------

/// The little-endian value of `bytes`.
pub open spec fn le_value(bytes: Seq<u8>) -> nat
    decreases bytes.len(),
{
    if bytes.len() == 0 {
        0
    } else {
        (bytes[0] + 256 * le_value(bytes.drop_first())) as nat
    }
}

proof fn lemma_le_value_bound(bytes: Seq<u8>)
    requires
        bytes.len() <= 8,
    ensures
        le_value(bytes) < crate::text::power(256, bytes.len()),
        crate::text::power(256, bytes.len()) <= 0x1_0000_0000_0000_0000,
    decreases bytes.len(),
{
    reveal_with_fuel(crate::text::power, 9);
    if bytes.len() > 0 {
        lemma_le_value_bound(bytes.drop_first());
        let p = crate::text::power(256, (bytes.len() - 1) as nat);
        let v = le_value(bytes.drop_first());
        assert(bytes[0] + 256 * v < 256 * p) by (nonlinear_arith)
            requires
                v < p,
                bytes[0] < 256,
        ;
    }
}

fn decode_little_endian(bytes: &[u8]) -> (v: u64)
    requires
        bytes@.len() <= 8,
    ensures
        v == le_value(bytes@),
{
    let n = bytes.len();
    let mut value: u64 = 0;
    let mut i: usize = n;
    proof {
        assert(bytes@.skip(n as int) =~= Seq::<u8>::empty());
    }
    while i > 0
        invariant
            n == bytes@.len(),
            n <= 8,
            i <= n,
            value == le_value(bytes@.skip(i as int)),
        decreases i,
    {
        i = i - 1;
        proof {
            assert(bytes@.skip(i as int).drop_first() =~= bytes@.skip(i + 1));
            lemma_le_value_bound(bytes@.skip(i as int));
        }
        value = bytes[i] as u64 + 256 * value;
    }
    assert(bytes@.skip(0) =~= bytes@);
    value
}

/// The pointer-sized value read at `address` from the first captured region
/// holding it, when `width` bytes are captured there.
pub open spec fn read_pointer_at(report: DumpReport, address: u64, width: nat) -> Option<u64> {
    match first_region(report.memory@, address) {
        None => None,
        Some(i) => {
            let region = report.memory@[i];
            let offset = address - region.start@->0;
            if offset > usize::MAX || offset + width > usize::MAX || offset + width
                > region.bytes@.len() {
                None
            } else {
                Some(le_value(region.bytes@.subrange(offset, offset + width)) as u64)
            }
        },
    }
}

proof fn lemma_first_region_contains(s: Seq<MemoryRow>, a: u64)
    requires
        first_region(s, a) is Some,
    ensures
        0 <= first_region(s, a)->0 < s.len(),
        region_contains(s[first_region(s, a)->0], Some(a)),
    decreases s.len(),
{
    if !region_contains(s[0], Some(a)) {
        lemma_first_region_contains(s.drop_first(), a);
    }
}

fn read_pointer(report: &DumpReport, address: u64, width: usize) -> (r: Option<u64>)
    requires
        width <= 8,
    ensures
        r == read_pointer_at(*report, address, width as nat),
{
    let k = find_region(&report.memory, address)?;
    let region = &report.memory[k];
    proof {
        lemma_first_region_contains(report.memory@, address);
    }
    let start = parse_address(&region.start)?;
    let offset_wide = address - start;
    if offset_wide > usize::MAX as u64 {
        return None;
    }
    let offset = offset_wide as usize;
    if offset > usize::MAX - width {
        return None;
    }
    let end = offset + width;
    if end > region.bytes.len() {
        return None;
    }
    let slice = vstd::slice::slice_subrange(region.bytes.as_slice(), offset, end);
    proof {
        lemma_le_value_bound(slice@);
    }
    Some(decode_little_endian(slice))
}

/// The next address in a pointer chain: the value stored at the chain's last
/// address, unless it is null, already in the chain, or not classifiable.
pub open spec fn chain_next(report: DumpReport, chain: Seq<u64>, width: nat) -> Option<u64> {
    match read_pointer_at(report, chain.last(), width) {
        None => None,
        Some(next) => if next == 0 || chain.contains(next) || classify(report, next) is None {
            None
        } else {
            Some(next)
        },
    }
}

/// The chain after `k` steps from `first` (it stops growing once a step fails).
pub open spec fn chain_steps(report: DumpReport, first: u64, width: nat, k: nat) -> Seq<u64>
    decreases k,
{
    if k == 0 {
        seq![first]
    } else {
        let c = chain_steps(report, first, width, (k - 1) as nat);
        if c.len() == k {
            match chain_next(report, c, width) {
                Some(next) => c.push(next),
                None => c,
            }
        } else {
            c
        }
    }
}

/// The bounded pointer chain starting at `first`, with at most `max_depth`
/// addresses (at least the first one).
pub open spec fn pointer_chain(report: DumpReport, first: u64, width: nat, max_depth: nat) -> Seq<
    u64,
> {
    chain_steps(
        report,
        first,
        width,
        if max_depth == 0 {
            0
        } else {
            (max_depth - 1) as nat
        },
    )
}

proof fn lemma_chain_steps_len(report: DumpReport, first: u64, width: nat, k: nat)
    ensures
        1 <= chain_steps(report, first, width, k).len() <= k + 1,
    decreases k,
{
    if k > 0 {
        lemma_chain_steps_len(report, first, width, (k - 1) as nat);
    }
}

fn follow_pointer_chain(report: &DumpReport, first_target: u64, width: usize, max_depth: usize) -> (chain:
    Vec<u64>)
    requires
        width <= 8,
    ensures
        chain@ == pointer_chain(*report, first_target, width as nat, max_depth as nat),
{
    let mut chain: Vec<u64> = Vec::new();
    chain.push(first_target);
    let mut address = first_target;
    let mut step: usize = 1;
    let mut stopped = false;
    assert(chain@ =~= chain_steps(*report, first_target, width as nat, 0));
    while step < max_depth && !stopped
        invariant
            width <= 8,
            1 <= step,
            max_depth == 0 ==> step == 1,
            max_depth > 0 ==> step <= max_depth,
            stopped ==> chain@ == pointer_chain(
                *report,
                first_target,
                width as nat,
                max_depth as nat,
            ),
            !stopped ==> chain@ == chain_steps(*report, first_target, width as nat, (step - 1) as nat),
            !stopped ==> chain@.len() == step,
            !stopped ==> address == chain@.last(),
        decreases max_depth - step + (if stopped {
            0int
        } else {
            1int
        }),
    {
        let ghost prev = chain@;
        proof {
            lemma_chain_steps_len(*report, first_target, width as nat, (step - 1) as nat);
        }
        let next_opt = read_pointer(report, address, width);
        let mut extend = false;
        if let Some(next) = next_opt {
            if next != 0 && !vec_contains(&chain, next) && classify_address(report, next).is_some() {
                extend = true;
            }
        }
        if extend {
            let next = next_opt.unwrap();
            chain.push(next);
            address = next;
            step = step + 1;
        } else {
            stopped = true;
            proof {
                lemma_chain_steps_stable(
                    *report,
                    first_target,
                    width as nat,
                    step as nat,
                    (max_depth - 1) as nat,
                );
            }
        }
    }
    proof {
        if !stopped {
            if max_depth == 0 {
                assert(step == 1);
            }
        }
    }
    chain
}

/// Once a chain stops growing, later steps leave it unchanged.
proof fn lemma_chain_steps_stable(report: DumpReport, first: u64, width: nat, k: nat, m: nat)
    requires
        k <= m,
        k >= 1,
        chain_steps(report, first, width, (k - 1) as nat).len() == k,
        chain_next(report, chain_steps(report, first, width, (k - 1) as nat), width) is None,
    ensures
        chain_steps(report, first, width, m) == chain_steps(report, first, width, (k - 1) as nat),
    decreases m,
{
    if m > k {
        lemma_chain_steps_stable(report, first, width, k, (m - 1) as nat);
        lemma_chain_steps_len(report, first, width, (k - 1) as nat);
    }
}

fn vec_contains(v: &Vec<u64>, x: u64) -> (b: bool)
    ensures
        b == v@.contains(x),
{
    let n = v.len();
    let mut i: usize = 0;
    while i < n
        invariant
            n == v@.len(),
            i <= n,
            forall|k: int| 0 <= k < i ==> v@[k] != x,
        decreases n - i,
    {
        if v[i] == x {
            return true;
        }
        i = i + 1;
    }
    false
}

// ---------------------------------------------------------------------------
// Decoded pointers
// ---------------------------------------------------------------------------

/// The mathematical value of a [`DecodedPointer`].
pub struct PointerView {
    pub address: u64,
    pub value: u64,
    pub target: TargetView,
    pub chain: Seq<u64>,
}

impl View for DecodedPointer {
    type V = PointerView;

    open spec fn view(&self) -> PointerView {
        PointerView {
            address: self.address,
            value: self.value,
            target: self.target@,
            chain: self.chain@,
        }
    }
}

pub open spec fn pointer_views(v: Seq<DecodedPointer>) -> Seq<PointerView> {
    v.map_values(|p: DecodedPointer| p@)
}

/// The value of the `k`-th pointer-sized chunk of the region's bytes.
pub open spec fn chunk_value(region: MemoryRow, width: nat, k: int) -> nat {
    le_value(region.bytes@.subrange(k * width, k * width + width))
}

/// The `k`-th chunk as a decoded pointer, when it is non-null and classified.
pub open spec fn decoded_entry(
    report: DumpReport,
    region: MemoryRow,
    width: nat,
    start: u64,
    k: int,
) -> Option<PointerView> {
    let v = chunk_value(region, width, k) as u64;
    if v == 0 {
        None
    } else {
        match classify(report, v) {
            None => None,
            Some(t) => Some(
                PointerView {
                    address: (start + k * width) as u64,
                    value: v,
                    target: t,
                    chain: pointer_chain(report, v, width, 3),
                },
            ),
        }
    }
}

/// The decoded pointers among the first `k` chunks, in order.
pub open spec fn decoded_upto(
    report: DumpReport,
    region: MemoryRow,
    width: nat,
    start: u64,
    k: nat,
) -> Seq<PointerView>
    decreases k,
{
    if k == 0 {
        Seq::empty()
    } else {
        let r = decoded_upto(report, region, width, start, (k - 1) as nat);
        match decoded_entry(report, region, width, start, k - 1) {
            Some(e) => r.push(e),
            None => r,
        }
    }
}

/// The pointers decoded from a region: every complete pointer-sized chunk,
/// read little-endian with the report's pointer width, that is non-null and
/// points at known dump data; at most `limit` of them. Nothing is decoded when
/// the pointer width or the region's start is unknown.
pub open spec fn decoded(report: DumpReport, region: MemoryRow, limit: nat) -> Seq<PointerView> {
    match (report.pointer_size, region.start@) {
        (Some(size), Some(start)) => {
            let w = pointer_bytes(size);
            first_n(decoded_upto(report, region, w, start, region.bytes@.len() / w), limit)
        },
        _ => Seq::empty(),
    }
}

/// The `k`-th chunk is one of the first `limit` pointers that the decoder
/// keeps.
pub open spec fn kept_within(
    report: DumpReport,
    region: MemoryRow,
    width: nat,
    start: u64,
    k: int,
    limit: nat,
) -> bool {
    decoded_entry(report, region, width, start, k) is Some && decoded_upto(
        report,
        region,
        width,
        start,
        k as nat,
    ).len() < limit
}

/// Every pointer that the decoder keeps, among the first `limit`, lies at an
/// address inside the 64-bit address space. Only a region whose bytes run
/// past the top of the address space can hold one that does not.
pub open spec fn decoded_addressable(report: DumpReport, region: MemoryRow, limit: nat) -> bool {
    match (report.pointer_size, region.start@) {
        (Some(size), Some(start)) => kept_addressable(
            report,
            region,
            pointer_bytes(size),
            start,
            limit,
        ),
        _ => true,
    }
}

/// Every chunk kept among the first `limit`, with `width`-byte pointers from
/// `start`, lies at an address below 2^64.
pub open spec fn kept_addressable(
    report: DumpReport,
    region: MemoryRow,
    width: nat,
    start: u64,
    limit: nat,
) -> bool {
    forall|k: int|
        0 <= k < region.bytes@.len() / width && #[trigger] kept_within(
            report,
            region,
            width,
            start,
            k,
            limit,
        ) ==> start + k * width <= u64::MAX
}

proof fn lemma_decoded_upto_prefix(
    report: DumpReport,
    region: MemoryRow,
    width: nat,
    start: u64,
    k: nat,
    m: nat,
)
    requires
        k <= m,
    ensures
        decoded_upto(report, region, width, start, k).len() <= decoded_upto(
            report,
            region,
            width,
            start,
            m,
        ).len(),
        decoded_upto(report, region, width, start, m).take(
            decoded_upto(report, region, width, start, k).len() as int,
        ) == decoded_upto(report, region, width, start, k),
    decreases m,
{
    if k < m {
        lemma_decoded_upto_prefix(report, region, width, start, k, (m - 1) as nat);
        let a = decoded_upto(report, region, width, start, k);
        let b = decoded_upto(report, region, width, start, (m - 1) as nat);
        let c = decoded_upto(report, region, width, start, m);
        assert(c.take(a.len() as int) =~= b.take(a.len() as int));
    } else {
        let a = decoded_upto(report, region, width, start, k);
        assert(a.take(a.len() as int) =~= a);
    }
}

/// Pointer-sized values found in the region that point at known dump data,
/// each with its bounded pointer chain.
pub fn decoded_pointers(report: &DumpReport, region: &MemoryRow, limit: usize) -> (r: Vec<
    DecodedPointer,
>)
    requires
        decoded_addressable(*report, *region, limit as nat),
    ensures
        pointer_views(r@) == decoded(*report, *region, limit as nat),
{
    // Never infer width from the host: a 32-bit dump may be inspected on a
    // 64-bit machine, and an unknown width makes every decoded value suspect.
    let width = match report.pointer_size {
        Some(size) => size.bytes(),
        None => {
            return Vec::new();
        },
    };
    let start = match parse_address(&region.start) {
        Some(start) => start,
        None => {
            return Vec::new();
        },
    };
    let ghost w = width as nat;
    let blen = region.bytes.len();
    let count = blen / width;
    let mut out: Vec<DecodedPointer> = Vec::new();
    let mut k: usize = 0;
    assert(forall|j: int|
        0 <= j < count && #[trigger] kept_within(*report, *region, w, start, j, limit as nat)
            ==> start + j * w <= u64::MAX);
    while k < count && out.len() < limit
        invariant
            w == width as nat,
            width == 4 || width == 8,
            forall|j: int|
                0 <= j < count && #[trigger] kept_within(*report, *region, w, start, j, limit as nat)
                    ==> start + j * w <= u64::MAX,
            region.start@ == Some(start),
            blen == region.bytes@.len(),
            count == region.bytes@.len() / w,
            k <= count,
            out@.len() <= limit,
            pointer_views(out@) == decoded_upto(*report, *region, w, start, k as nat),
        decreases count - k,
    {
        proof {
            assert(k * w + w <= region.bytes@.len()) by (nonlinear_arith)
                requires
                    k < count,
                    count == region.bytes@.len() / w,
                    w > 0,
            ;
        }
        let from = k * width;
        let chunk = vstd::slice::slice_subrange(region.bytes.as_slice(), from, from + width);
        proof {
            lemma_le_value_bound(chunk@);
        }
        let value = decode_little_endian(chunk);
        let ghost before = pointer_views(out@);
        if value != 0 {
            match classify_address(report, value) {
                Some(target) => {
                    let chain = follow_pointer_chain(report, value, width, 3);
                    proof {
                        assert(before.len() == out@.len());
                        assert(decoded_entry(*report, *region, w, start, k as int) is Some);
                        assert(kept_within(*report, *region, w, start, k as int, limit as nat));
                    }
                    assert(start + from <= u64::MAX);
                    let entry = DecodedPointer {
                        address: start + from as u64,
                        value,
                        target,
                        chain,
                    };
                    out.push(entry);
                    assert(pointer_views(out@) =~= before.push(entry@));
                },
                None => {},
            }
        }
        k = k + 1;
        assert(pointer_views(out@) =~= decoded_upto(*report, *region, w, start, k as nat));
    }
    proof {
        let full = decoded_upto(*report, *region, w, start, count as nat);
        let part = decoded_upto(*report, *region, w, start, k as nat);
        lemma_decoded_upto_prefix(*report, *region, w, start, k as nat, count as nat);
        assert(pointer_views(out@).len() == out@.len());
        if k == count {
            assert(part == full);
        } else {
            assert(part.len() == limit);
            assert(full.take(limit as int) =~= part);
        }
    }
    out
}

/// Whether every pointer that `decoded_pointers` keeps, among the first
/// `limit`, lies at an address inside the 64-bit address space; a caller
/// tests this before decoding a region whose bytes may run past the top.
pub fn decoded_pointers_fit(report: &DumpReport, region: &MemoryRow, limit: usize) -> (b: bool)
    ensures
        b == decoded_addressable(*report, *region, limit as nat),
{
    let width = match report.pointer_size {
        Some(size) => size.bytes(),
        None => {
            return true;
        },
    };
    let start = match parse_address(&region.start) {
        Some(start) => start,
        None => {
            return true;
        },
    };
    let ghost w = width as nat;
    let blen = region.bytes.len();
    let count = blen / width;
    let mut kept: usize = 0;
    let mut k: usize = 0;
    while k < count
        invariant
            w == width as nat,
            width == 4 || width == 8,
            report.pointer_size matches Some(size) && pointer_bytes(size) == w,
            region.start@ == Some(start),
            blen == region.bytes@.len(),
            count == region.bytes@.len() / w,
            k <= count,
            kept <= k,
            kept == decoded_upto(*report, *region, w, start, k as nat).len(),
            forall|j: int|
                0 <= j < k && #[trigger] kept_within(*report, *region, w, start, j, limit as nat)
                    ==> start + j * w <= u64::MAX,
        decreases count - k,
    {
        proof {
            assert(k * w + w <= region.bytes@.len()) by (nonlinear_arith)
                requires
                    k < count,
                    count == region.bytes@.len() / w,
                    w > 0,
            ;
        }
        let from = k * width;
        let chunk = vstd::slice::slice_subrange(region.bytes.as_slice(), from, from + width);
        proof {
            lemma_le_value_bound(chunk@);
        }
        let value = decode_little_endian(chunk);
        if value != 0 && classify_address(report, value).is_some() {
            assert(decoded_entry(*report, *region, w, start, k as int) is Some);
            if kept < limit && from as u64 > u64::MAX - start {
                proof {
                    assert(from as int == k * w);
                    assert(kept_within(*report, *region, w, start, k as int, limit as nat));
                    assert(!(start + k * w <= u64::MAX));
                    assert(0 <= k < region.bytes@.len() / w);
                    let size = report.pointer_size->0;
                    assert(pointer_bytes(size) == w);
                    assert(decoded_addressable(*report, *region, limit as nat) == kept_addressable(
                        *report,
                        *region,
                        w,
                        start,
                        limit as nat,
                    ));
                }
                return false;
            }
            kept = kept + 1;
        } else {
            assert(decoded_entry(*report, *region, w, start, k as int) is None);
        }
        k = k + 1;
    }
    true
}

// ---------------------------------------------------------------------------
// Registers of the crashing frame
// ---------------------------------------------------------------------------

/// The mathematical value of a [`RegisterFinding`].
pub struct FindingView {
    pub register: Seq<char>,
    pub value: Seq<char>,
    pub target: RegisterTargetView,
    pub suspicious: bool,
}

impl View for RegisterFinding {
    type V = FindingView;

    open spec fn view(&self) -> FindingView {
        FindingView {
            register: self.register@,
            value: self.value@,
            target: self.target@,
            suspicious: self.suspicious,
        }
    }
}

pub open spec fn finding_views(v: Seq<RegisterFinding>) -> Seq<FindingView> {
    v.map_values(|f: RegisterFinding| f@)
}

/// What one register of the crashing frame points at: invalid when its value
/// is not address text, else the address's owner, or unmapped when it has
/// none. It is suspicious when it is below 4096, unmapped, invalid or null.
pub open spec fn finding_of(report: DumpReport, register: (String, String)) -> FindingView {
    let address = parse_address_text(register.1@);
    let target = match address {
        Some(a) => match classify(report, a) {
            Some(t) => RegisterTargetView::Known(t),
            None => RegisterTargetView::Unmapped,
        },
        None => RegisterTargetView::Invalid,
    };
    FindingView {
        register: register.0@,
        value: register.1@,
        target,
        suspicious: (address is Some && address->0 < 4096) || target is Unmapped || target is Invalid
            || target == RegisterTargetView::Known(TargetView::Null),
    }
}

/// The findings for every register of the first frame of the first crashed
/// thread, in order; none when there is no such frame.
pub open spec fn findings(report: DumpReport) -> Seq<FindingView> {
    match crate::report::first_crashed(report.threads@) {
        Some(i) => if report.threads@[i].frames@.len() > 0 {
            report.threads@[i].frames@[0].registers@.map_values(
                |r: (String, String)| finding_of(report, r),
            )
        } else {
            Seq::empty()
        },
        None => Seq::empty(),
    }
}

/// Relates each register of the crashing frame to known dump data.
pub fn register_findings(report: &DumpReport) -> (r: Vec<RegisterFinding>)
    ensures
        finding_views(r@) == findings(*report),
{
    let Some(t) = crate::report::crashed_thread_index(report) else {
        return Vec::new();
    };
    let thread = &report.threads[t];
    if thread.frames.len() == 0 {
        return Vec::new();
    }
    let frame = &thread.frames[0];
    let n = frame.registers.len();
    let mut out: Vec<RegisterFinding> = Vec::new();
    let mut i: usize = 0;
    while i < n
        invariant
            n == frame.registers@.len(),
            i <= n,
            finding_views(out@) == frame.registers@.take(i as int).map_values(
                |r: (String, String)| finding_of(*report, r),
            ),
        decreases n - i,
    {
        let register = &frame.registers[i].0;
        let value = &frame.registers[i].1;
        let address = parse_address(value);
        let target = match address {
            Some(a) => match classify_address(report, a) {
                Some(t) => RegisterTarget::Known(t),
                None => RegisterTarget::Unmapped,
            },
            None => RegisterTarget::Invalid,
        };
        let low = match address {
            Some(a) => a < 4096,
            None => false,
        };
        let suspicious = low || match &target {
            RegisterTarget::Unmapped | RegisterTarget::Invalid => true,
            RegisterTarget::Known(AddressTarget::Null) => true,
            _ => false,
        };
        let finding = RegisterFinding {
            register: register.clone(),
            value: value.clone(),
            target,
            suspicious,
        };
        let ghost before = finding_views(out@);
        out.push(finding);
        assert(finding@ == finding_of(*report, frame.registers@[i as int]));
        assert(frame.registers@.take(i + 1).map_values(|r: (String, String)| finding_of(*report, r))
            =~= frame.registers@.take(i as int).map_values(
            |r: (String, String)| finding_of(*report, r),
        ).push(finding_of(*report, frame.registers@[i as int])));
        assert(finding_views(out@) =~= before.push(finding@));
        i = i + 1;
    }
    assert(frame.registers@.take(n as int) =~= frame.registers@);
    out
}

// ---------------------------------------------------------------------------
// Laws of pointer chains
// ---------------------------------------------------------------------------

/// A pointer chain starts at its first target, holds at most `max_depth`
/// addresses (at least one), repeats no address, and each later address is
/// non-null, owned by known dump data, and the value stored at the address
/// before it.
pub proof fn lemma_pointer_chain_laws(report: DumpReport, first: u64, width: nat, max_depth: nat)
    ensures
        ({
            let c = pointer_chain(report, first, width, max_depth);
            &&& c.len() >= 1
            &&& c[0] == first
            &&& c.len() <= (if max_depth == 0 {
                1
            } else {
                max_depth
            })
            &&& c.no_duplicates()
            &&& forall|i: int|
                1 <= i < c.len() ==> #[trigger] c[i] != 0 && classify(report, c[i]) is Some
                    && read_pointer_at(report, c[i - 1], width) == Some(c[i])
        }),
{
    let k: nat = if max_depth == 0 {
        0
    } else {
        (max_depth - 1) as nat
    };
    lemma_chain_steps_laws(report, first, width, k);
}

proof fn lemma_chain_steps_laws(report: DumpReport, first: u64, width: nat, k: nat)
    ensures
        ({
            let c = chain_steps(report, first, width, k);
            &&& 1 <= c.len() <= k + 1
            &&& c[0] == first
            &&& c.no_duplicates()
            &&& forall|i: int|
                1 <= i < c.len() ==> #[trigger] c[i] != 0 && classify(report, c[i]) is Some
                    && read_pointer_at(report, c[i - 1], width) == Some(c[i])
        }),
    decreases k,
{
    if k > 0 {
        lemma_chain_steps_laws(report, first, width, (k - 1) as nat);
        let c = chain_steps(report, first, width, (k - 1) as nat);
        if c.len() == k {
            match chain_next(report, c, width) {
                Some(next) => {
                    let d = c.push(next);
                    assert(d[0] == first);
                    assert forall|i: int, j: int| 0 <= i < d.len() && 0 <= j < d.len() && i != j
                        implies d[i] != d[j] by {
                        if i == d.len() - 1 {
                            assert(c.contains(c[j]));
                        } else if j == d.len() - 1 {
                            assert(c.contains(c[i]));
                        }
                    }
                    assert forall|i: int| 1 <= i < d.len() implies #[trigger] d[i] != 0 && classify(
                        report,
                        d[i],
                    ) is Some && read_pointer_at(report, d[i - 1], width) == Some(d[i]) by {
                        if i < d.len() - 1 {
                            assert(d[i] == c[i]);
                            assert(d[i - 1] == c[i - 1]);
                        } else {
                            assert(d[i - 1] == c.last());
                        }
                    }
                },
                None => {},
            }
        }
    } else {
        assert(chain_steps(report, first, width, 0) == seq![first]);
    }
}

// ---------------------------------------------------------------------------
// Strings in captured bytes
// ---------------------------------------------------------------------------

/// Printable ASCII: a graphic character or a space.
pub open spec fn is_text_byte(b: u8) -> bool {
    32 <= b <= 126
}

/// Scanning `u` from the left: the runs of printable bytes of length four or
/// more that have ended, and the run still open.
pub open spec fn run_state(u: Seq<u8>) -> (Seq<Seq<u8>>, Seq<u8>)
    decreases u.len(),
{
    if u.len() == 0 {
        (Seq::empty(), Seq::empty())
    } else {
        let (done, cur) = run_state(u.drop_last());
        if is_text_byte(u.last()) {
            (done, cur.push(u.last()))
        } else {
            (
                if cur.len() >= 4 {
                    done.push(cur)
                } else {
                    done
                },
                Seq::empty(),
            )
        }
    }
}

/// The maximal runs of printable bytes in `u` that are at least four long.
pub open spec fn text_runs(u: Seq<u8>) -> Seq<Seq<u8>> {
    let (done, cur) = run_state(u);
    if cur.len() >= 4 {
        done.push(cur)
    } else {
        done
    }
}

/// Each little-endian UTF-16 code unit of `bytes` (complete pairs only) as
/// its printable ASCII byte, or 0 when it is not printable ASCII.
pub open spec fn utf16_units(bytes: Seq<u8>) -> Seq<u8> {
    Seq::new(
        bytes.len() / 2,
        |k: int|
            if bytes[2 * k + 1] == 0 && is_text_byte(bytes[2 * k]) {
                bytes[2 * k]
            } else {
                0u8
            },
    )
}

pub open spec fn byte_chars(r: Seq<u8>) -> Seq<char> {
    r.map_values(|b: u8| b as char)
}

pub open spec fn labeled(label: Seq<char>, runs: Seq<Seq<u8>>) -> Seq<Seq<char>> {
    runs.map_values(|r: Seq<u8>| label + " \u{b7} "@ + byte_chars(r))
}

/// Readable strings in captured bytes: ASCII runs, then little-endian UTF-16
/// runs, each at least four characters and labelled with its encoding; at
/// most `limit` of them.
pub open spec fn strings_in(bytes: Seq<u8>, limit: nat) -> Seq<Seq<char>> {
    first_n(
        labeled("ASCII"@, text_runs(bytes)) + labeled("UTF-16"@, text_runs(utf16_units(bytes))),
        limit,
    )
}

proof fn lemma_first_n_push<A>(s: Seq<A>, x: A, n: nat)
    ensures
        first_n(s.push(x), n) == (if s.len() < n {
            s.push(x)
        } else {
            first_n(s, n)
        }),
{
    if s.len() >= n {
        assert(s.push(x).take(n as int) =~= s.take(n as int));
    }
}

proof fn lemma_first_n_concat<A>(a: Seq<A>, b: Seq<A>, n: nat)
    ensures
        first_n(first_n(a, n) + b, n) == first_n(a + b, n),
{
    if n <= a.len() {
        assert((a.take(n as int) + b).take(n as int) =~= (a + b).take(n as int));
    }
}

fn label_run(label: &str, run: &Vec<u8>) -> (s: String)
    requires
        forall|i: int| 0 <= i < run@.len() ==> (#[trigger] run@[i]) < 128,
    ensures
        s@ == label@ + " \u{b7} "@ + byte_chars(run@),
{
    let mut s = string_from(label);
    push_str(&mut s, " \u{b7} ");
    let ghost base = s@;
    let n = run.len();
    let mut i: usize = 0;
    while i < n
        invariant
            n == run@.len(),
            i <= n,
            s@ == base + byte_chars(run@.take(i as int)),
        decreases n - i,
    {
        push_char(&mut s, run[i] as char);
        i = i + 1;
        assert(byte_chars(run@.take(i as int)) =~= byte_chars(run@.take(i - 1)).push(
            run@[i - 1] as char,
        ));
        assert(s@ =~= base + byte_chars(run@.take(i as int)));
    }
    assert(run@.take(n as int) =~= run@);
    s
}

/// Appends the labelled text runs of `units` to `found`, keeping at most
/// `limit` strings in all.
fn collect_runs(units: &Vec<u8>, label: &str, found: &mut Vec<String>, limit: usize)
    requires
        old(found)@.len() <= limit,
    ensures
        views(final(found)@) == first_n(views(old(found)@) + labeled(label@, text_runs(units@)), limit as nat),
        final(found)@.len() <= limit,
{
    let ghost base = views(found@);
    let n = units.len();
    let mut cur: Vec<u8> = Vec::new();
    let mut i: usize = 0;
    assert(units@.take(0) =~= Seq::<u8>::empty());
    assert(first_n(base + labeled(label@, Seq::empty()), limit as nat) =~= base);
    while i < n
        invariant
            n == units@.len(),
            i <= n,
            base.len() <= limit,
            cur@ == run_state(units@.take(i as int)).1,
            forall|k: int| 0 <= k < cur@.len() ==> is_text_byte(#[trigger] cur@[k]),
            views(found@) == first_n(base + labeled(label@, run_state(units@.take(i as int)).0), limit as nat),
            found@.len() <= limit,
        decreases n - i,
    {
        let b = units[i];
        let ghost prefix = units@.take(i + 1);
        assert(prefix.drop_last() =~= units@.take(i as int));
        assert(prefix.last() == b);
        let ghost done = run_state(units@.take(i as int)).0;
        if 32 <= b && b <= 126 {
            cur.push(b);
            assert(cur@ =~= run_state(prefix).1);
        } else {
            if cur.len() >= 4 {
                let ghost old_found = views(found@);
                proof {
                    lemma_first_n_push(base + labeled(label@, done), label@ + " \u{b7} "@ + byte_chars(cur@), limit as nat);
                    assert(labeled(label@, done.push(cur@)) =~= labeled(label@, done).push(label@ + " \u{b7} "@ + byte_chars(cur@)));
                    assert(base + labeled(label@, done.push(cur@)) =~= (base + labeled(label@, done)).push(label@ + " \u{b7} "@ + byte_chars(cur@)));
                }
                if found.len() < limit {
                    let text = label_run(label, &cur);
                    found.push(text);
                    assert(views(found@) =~= old_found.push(text@));
                }
            }
            cur = Vec::new();
            assert(cur@ =~= run_state(prefix).1);
        }
        i = i + 1;
    }
    assert(units@.take(n as int) =~= units@);
    let ghost done = run_state(units@).0;
    if cur.len() >= 4 {
        proof {
            lemma_first_n_push(base + labeled(label@, done), label@ + " \u{b7} "@ + byte_chars(cur@), limit as nat);
            assert(labeled(label@, done.push(cur@)) =~= labeled(label@, done).push(label@ + " \u{b7} "@ + byte_chars(cur@)));
            assert(base + labeled(label@, done.push(cur@)) =~= (base + labeled(label@, done)).push(label@ + " \u{b7} "@ + byte_chars(cur@)));
        }
        if found.len() < limit {
            let ghost old_found = views(found@);
            let text = label_run(label, &cur);
            found.push(text);
            assert(views(found@) =~= old_found.push(text@));
        }
    }
}

/// Readable ASCII and UTF-16 strings in captured bytes.
pub fn extract_strings(bytes: &[u8], limit: usize) -> (found: Vec<String>)
    ensures
        views(found@) == strings_in(bytes@, limit as nat),
{
    let mut found: Vec<String> = Vec::new();
    let ascii = slice_to_vec(bytes);
    collect_runs(&ascii, "ASCII", &mut found, limit);
    let ghost a = views(found@);
    let blen = bytes.len();
    let n = blen / 2;
    let mut units: Vec<u8> = Vec::new();
    let mut k: usize = 0;
    while k < n
        invariant
            blen == bytes@.len(),
            n == bytes@.len() / 2,
            k <= n,
            units@ == utf16_units(bytes@).take(k as int),
        decreases n - k,
    {
        let lo = bytes[2 * k];
        let hi = bytes[2 * k + 1];
        let unit = if hi == 0 && 32 <= lo && lo <= 126 {
            lo
        } else {
            0u8
        };
        units.push(unit);
        k = k + 1;
        assert(units@ =~= utf16_units(bytes@).take(k as int));
    }
    assert(utf16_units(bytes@).take(n as int) =~= utf16_units(bytes@));
    proof {
        reveal_strlit("ASCII");
    }
    collect_runs(&units, "UTF-16", &mut found, limit);
    proof {
        let empty: Seq<Seq<char>> = Seq::empty();
        assert(empty + labeled("ASCII"@, text_runs(bytes@)) =~= labeled("ASCII"@, text_runs(bytes@)));
        lemma_first_n_concat(
            labeled("ASCII"@, text_runs(bytes@)),
            labeled("UTF-16"@, text_runs(utf16_units(bytes@))),
            limit as nat,
        );
    }
    found
}

/// A copy of a byte slice.
fn slice_to_vec(bytes: &[u8]) -> (v: Vec<u8>)
    ensures
        v@ == bytes@,
{
    let n = bytes.len();
    let mut v: Vec<u8> = Vec::new();
    let mut i: usize = 0;
    while i < n
        invariant
            n == bytes@.len(),
            i <= n,
            v@ == bytes@.take(i as int),
        decreases n - i,
    {
        v.push(bytes[i]);
        i = i + 1;
        assert(v@ =~= bytes@.take(i as int));
    }
    assert(bytes@.take(n as int) =~= bytes@);
    v
}

// ---------------------------------------------------------------------------
// Region search
// ---------------------------------------------------------------------------

/// The UTF-8 encoding of one character.
pub open spec fn utf8_char(c: char) -> Seq<u8> {
    let u = c as u32;
    if u < 0x80 {
        seq![u as u8]
    } else if u < 0x800 {
        seq![(0xc0 + u / 64) as u8, (0x80 + u % 64) as u8]
    } else if u < 0x10000 {
        seq![(0xe0 + u / 4096) as u8, (0x80 + (u / 64) % 64) as u8, (0x80 + u % 64) as u8]
    } else {
        seq![
            (0xf0 + u / 262144) as u8,
            (0x80 + (u / 4096) % 64) as u8,
            (0x80 + (u / 64) % 64) as u8,
            (0x80 + u % 64) as u8,
        ]
    }
}

/// The UTF-8 encoding of a character sequence (`str::as_bytes`).
pub open spec fn utf8(s: Seq<char>) -> Seq<u8>
    decreases s.len(),
{
    if s.len() == 0 {
        Seq::empty()
    } else {
        utf8(s.drop_last()) + utf8_char(s.last())
    }
}

pub open spec fn lower_byte(b: u8) -> u8 {
    if 65 <= b <= 90 {
        (b + 32) as u8
    } else {
        b
    }
}

/// `needle` equals, ignoring ASCII case, the bytes of `hay` at index `i`.
pub open spec fn bytes_match_at(hay: Seq<u8>, needle: Seq<u8>, i: int) -> bool {
    0 <= i && i + needle.len() <= hay.len() && forall|j: int|
        0 <= j < needle.len() ==> lower_byte(#[trigger] hay[i + j]) == lower_byte(needle[j])
}

/// A region matches a search query when the trimmed query is empty, occurs
/// (ignoring ASCII case) in the region's start address text, is an address
/// inside the region, or occurs (ignoring ASCII case) in its captured bytes.
pub open spec fn query_matches(region: MemoryRow, query: Seq<char>) -> bool {
    let q = trim(query);
    q.len() == 0 || crate::text::contains(lower(address_text(region.start@)), lower(q)) || (
    parse_address_text(q) is Some && region_contains(region, parse_address_text(q))) || exists|
        i: int,
    |
        bytes_match_at(region.bytes@, utf8(q), i)
}

fn push_utf8(out: &mut Vec<u8>, c: char)
    ensures
        final(out)@ == old(out)@ + utf8_char(c),
{
    let u = c as u32;
    if u < 0x80 {
        out.push(u as u8);
    } else if u < 0x800 {
        out.push((0xc0 + u / 64) as u8);
        out.push((0x80 + u % 64) as u8);
    } else if u < 0x10000 {
        out.push((0xe0 + u / 4096) as u8);
        out.push((0x80 + (u / 64) % 64) as u8);
        out.push((0x80 + u % 64) as u8);
    } else {
        assert(u <= 0x10ffff);
        out.push((0xf0 + u / 262144) as u8);
        out.push((0x80 + (u / 4096) % 64) as u8);
        out.push((0x80 + (u / 64) % 64) as u8);
        out.push((0x80 + u % 64) as u8);
    }
    assert(out@ =~= old(out)@ + utf8_char(c));
}

proof fn lemma_utf8_char_nonempty(c: char)
    ensures
        utf8_char(c).len() >= 1,
{
}

fn utf8_of(s: &Vec<char>) -> (b: Vec<u8>)
    ensures
        b@ == utf8(s@),
        s@.len() > 0 ==> b@.len() > 0,
{
    let n = s.len();
    let mut out: Vec<u8> = Vec::new();
    let mut i: usize = 0;
    while i < n
        invariant
            n == s@.len(),
            i <= n,
            out@ == utf8(s@.take(i as int)),
            i > 0 ==> out@.len() > 0,
        decreases n - i,
    {
        proof {
            lemma_utf8_char_nonempty(s@[i as int]);
        }
        push_utf8(&mut out, s[i]);
        i = i + 1;
        assert(s@.take(i as int).drop_last() =~= s@.take(i - 1));
    }
    assert(s@.take(n as int) =~= s@);
    out
}

fn lower_byte_exec(b: u8) -> (r: u8)
    ensures
        r == lower_byte(b),
{
    if 65 <= b && b <= 90 {
        b + 32
    } else {
        b
    }
}

fn bytes_match_at_exec(hay: &Vec<u8>, needle: &Vec<u8>, i: usize) -> (b: bool)
    requires
        i + needle@.len() <= hay@.len(),
    ensures
        b == bytes_match_at(hay@, needle@, i as int),
{
    let m = needle.len();
    let n = hay.len();
    let mut j: usize = 0;
    while j < m
        invariant
            m == needle@.len(),
            n == hay@.len(),
            i + m <= n,
            j <= m,
            forall|t: int| 0 <= t < j ==> lower_byte(#[trigger] hay@[i + t]) == lower_byte(needle@[t]),
        decreases m - j,
    {
        if lower_byte_exec(hay[i + j]) != lower_byte_exec(needle[j]) {
            return false;
        }
        j = j + 1;
    }
    true
}

/// Whether a captured region matches a memory-search query.
pub fn matches_query(region: &MemoryRow, query: &str) -> (b: bool)
    ensures
        b == query_matches(*region, query@),
{
    let q = trim_of(query);
    if q.len() == 0 {
        return true;
    }
    let start_text = region.start.display();
    let start_lower = crate::text::lower_of(start_text.as_str());
    let q_lower = lower_chars(&q);
    if crate::text::contains_exec(&start_lower, &q_lower) {
        return true;
    }
    let q_string = crate::text::string_of(&q);
    let parsed = parse_address(q_string.as_str());
    if let Some(address) = parsed {
        if contains(region, Some(address)) {
            return true;
        }
    }
    let needle = utf8_of(&q);
    let n = region.bytes.len();
    let m = needle.len();
    if m > n {
        assert forall|i: int| !bytes_match_at(region.bytes@, utf8(q@), i) by {}
        return false;
    }
    let mut i: usize = 0;
    while i <= n - m
        invariant
            n == region.bytes@.len(),
            m == needle@.len(),
            1 <= m <= n,
            needle@ == utf8(q@),
            q@ == trim(query@),
            i <= n - m + 1,
            forall|t: int| 0 <= t < i ==> !bytes_match_at(region.bytes@, needle@, t),
        decreases n - m + 1 - i,
    {
        if bytes_match_at_exec(&region.bytes, &needle, i) {
            assert(bytes_match_at(region.bytes@, utf8(trim(query@)), i as int));
            return true;
        }
        i = i + 1;
    }
    assert forall|t: int| !bytes_match_at(region.bytes@, utf8(q@), t) by {
        if 0 <= t && t + m <= n {
            assert(t < i);
        }
    }
    false
}

/// Unknown metadata stays unknown: without a pointer width from the dump's
/// architecture, no pointer is decoded from any region.
pub proof fn lemma_unknown_width_decodes_nothing(report: DumpReport, region: MemoryRow, limit: nat)
    requires
        report.pointer_size is None,
    ensures
        decoded(report, region, limit) == Seq::<PointerView>::empty(),
{
}

} // verus!
