//! Sections: named half-open address ranges with a storage kind and an
//! alignment, collected into a name-indexed, non-overlapping family.

use vstd::prelude::*;
use vstd::arithmetic::power2::pow2;
use vstd::slice::slice_subrange;
use crate::function::Function;
use crate::text::{
    ParseContext, tokens, strip_comment, split_attr, views, str_to_chars, chars_to_string,
    chars_eq_str, strip_comment_chars, tokenize, split_attr_chars,
};
use crate::num::{parse_u32_spec, parse_u32_chars};
use crate::relocations::new_string;

verus! {

// ---------------------------------------------------------------------------
// Section kinds
// ---------------------------------------------------------------------------

/// What a section stores: executable code, initialized data, or zero-filled
/// uninitialized storage.
#[derive(Clone, Copy, PartialEq, Eq, Structural, Debug)]
pub enum SectionKind {
    Code,
    Data,
    Bss,
}

pub open spec fn parse_section_kind_spec(v: Seq<char>) -> Option<SectionKind> {
    if v == "code"@ {
        Some(SectionKind::Code)
    } else if v == "data"@ {
        Some(SectionKind::Data)
    } else if v == "bss"@ {
        Some(SectionKind::Bss)
    } else {
        None
    }
}

#[derive(Debug, Clone, PartialEq, Eq)]
pub enum SectionKindError {
    UnknownKind { context: ParseContext, value: String },
}

impl SectionKind {
    pub fn parse(value: &Vec<char>, context: &ParseContext) -> (r: Result<SectionKind, SectionKindError>)
        ensures
            match r {
                Ok(k) => parse_section_kind_spec(value@) == Some(k),
                Err(e) => parse_section_kind_spec(value@) is None
                    && (e matches SectionKindError::UnknownKind { context: c, value: v }
                        && v@ == value@ && c.file_path@ == context.file_path@ && c.row == context.row),
            },
    {
        if chars_eq_str(value, "code") {
            Ok(SectionKind::Code)
        } else if chars_eq_str(value, "data") {
            Ok(SectionKind::Data)
        } else if chars_eq_str(value, "bss") {
            Ok(SectionKind::Bss)
        } else {
            Err(SectionKindError::UnknownKind {
                context: context.duplicate(),
                value: chars_to_string(value),
            })
        }
    }

    /// Code and data have backing bytes in the image; bss does not.
    pub fn is_initialized(self) -> (r: bool)
        ensures
            r == (self != SectionKind::Bss),
    {
        match self {
            SectionKind::Code => true,
            SectionKind::Data => true,
            SectionKind::Bss => false,
        }
    }
}

// ---------------------------------------------------------------------------
// Power-of-two alignments
// ---------------------------------------------------------------------------

/// A valid alignment: a power of two that fits in a `u32`.
pub open spec fn is_power_of_two(a: u32) -> bool {
    exists|k: nat| k < 32 && a as nat == pow2(k)
}

pub fn power_of_two(a: u32) -> (r: bool)
    ensures
        r == is_power_of_two(a),
{
    let mut p: u64 = 1;
    let mut k: u32 = 0;
    proof {
        vstd::arithmetic::power2::lemma2_to64();
    }
    while k < 32
        invariant
            k <= 32,
            p == pow2(k as nat),
            p <= 0x1_0000_0000u64,
            forall|j: nat| j < k ==> pow2(j) != a as nat,
        decreases 32 - k,
    {
        if p == a as u64 {
            return true;
        }
        proof {
            assert(pow2((k + 1) as nat) == 2 * pow2(k as nat)) by {
                vstd::arithmetic::power2::lemma_pow2_unfold((k + 1) as nat);
            }
            assert(pow2(k as nat) <= 0x8000_0000u64) by {
                if pow2(k as nat) > 0x8000_0000u64 {
                    vstd::arithmetic::power2::lemma2_to64();
                    vstd::arithmetic::power::lemma_pow_increases(2, k as nat, 31);
                }
            }
        }
        p = p * 2;
        k = k + 1;
    }
    false
}

// ---------------------------------------------------------------------------
// A single section
// ---------------------------------------------------------------------------

/// A named address range `[start_address, end_address)` with a kind, an
/// alignment, and the functions attached to it so far.
#[derive(Clone, Debug)]
pub struct Section {
    pub name: String,
    pub kind: SectionKind,
    pub start_address: u32,
    pub end_address: u32,
    pub alignment: u32,
    pub functions: Vec<Function>,
}

/// The mathematical shape of a section.
pub struct SectionView {
    pub name: Seq<char>,
    pub kind: SectionKind,
    pub start_address: u32,
    pub end_address: u32,
    pub alignment: u32,
    pub functions: Seq<Function>,
}

impl View for Section {
    type V = SectionView;

    open spec fn view(&self) -> SectionView {
        SectionView {
            name: self.name@,
            kind: self.kind,
            start_address: self.start_address,
            end_address: self.end_address,
            alignment: self.alignment,
            functions: self.functions@,
        }
    }
}

/// Attached functions are strictly ordered by their start address: one
/// record per address.
pub open spec fn functions_ordered(s: Seq<Function>) -> bool {
    forall|i: int, j: int| 0 <= i < j < s.len()
        ==> s[i].start_address < s[j].start_address
}

#[derive(Debug, Clone, PartialEq, Eq)]
pub enum SectionError {
    EndBeforeStart { name: String, start_address: u32, end_address: u32 },
    AlignmentPowerOfTwo { name: String, alignment: u32 },
    MisalignedStart { name: String, start_address: u32, alignment: u32 },
}

impl Section {
    /// A section never ends before it starts, its alignment is a power of
    /// two dividing its start address, and its functions are kept in
    /// address order.
    pub open spec fn wf(&self) -> bool {
        &&& self.start_address <= self.end_address
        &&& is_power_of_two(self.alignment)
        &&& self.start_address as int % self.alignment as int == 0
        &&& functions_ordered(self.functions@)
    }

    /// Validated construction: the range must be ordered, the alignment a
    /// power of two, and the start a multiple of the alignment — checked
    /// in that order, nothing stored on failure.
    pub fn new(name: String, kind: SectionKind, start_address: u32, end_address: u32, alignment: u32)
        -> (r: Result<Section, SectionError>)
        ensures
            construction_outcome(name@, kind, start_address, end_address, alignment, Seq::empty(), r),
    {
        Section::with_functions(name, kind, start_address, end_address, alignment, Vec::new())
    }

    pub fn with_functions(
        name: String,
        kind: SectionKind,
        start_address: u32,
        end_address: u32,
        alignment: u32,
        functions: Vec<Function>,
    ) -> (r: Result<Section, SectionError>)
        requires
            functions_ordered(functions@),
        ensures
            construction_outcome(name@, kind, start_address, end_address, alignment, functions@, r),
    {
        if end_address < start_address {
            return Err(SectionError::EndBeforeStart { name, start_address, end_address });
        }
        if !power_of_two(alignment) {
            return Err(SectionError::AlignmentPowerOfTwo { name, alignment });
        }
        proof {
            let k = choose|k: nat| k < 32 && alignment as nat == pow2(k);
            vstd::arithmetic::power2::lemma_pow2_pos(k);
        }
        if start_address % alignment != 0 {
            return Err(SectionError::MisalignedStart { name, start_address, alignment });
        }
        Ok(Section { name, kind, start_address, end_address, alignment, functions })
    }

    /// A same-named section redeclared with a new range: the kind and
    /// alignment are taken from the declaration, and the new range must be
    /// ordered and start at a multiple of that alignment.
    pub fn inherit(other: &Section, start_address: u32, end_address: u32) -> (r: Result<Section, SectionError>)
        requires
            other.wf(),
        ensures
            match r {
                Ok(s) => start_address <= end_address
                    && start_address as int % other.alignment as int == 0
                    && s@ == (SectionView {
                        name: other.name@,
                        kind: other.kind,
                        start_address,
                        end_address,
                        alignment: other.alignment,
                        functions: Seq::empty(),
                    }) && s.wf(),
                Err(SectionError::EndBeforeStart { name, start_address: s2, end_address: e2 }) =>
                    end_address < start_address
                        && name@ == other.name@ && s2 == start_address && e2 == end_address,
                Err(SectionError::MisalignedStart { name, start_address: s2, alignment: a2 }) =>
                    start_address <= end_address
                        && start_address as int % other.alignment as int != 0
                        && name@ == other.name@ && s2 == start_address && a2 == other.alignment,
                Err(SectionError::AlignmentPowerOfTwo { .. }) => false,
            },
    {
        if end_address < start_address {
            return Err(SectionError::EndBeforeStart {
                name: other.name.clone(),
                start_address,
                end_address,
            });
        }
        proof {
            let k = choose|k: nat| k < 32 && other.alignment as nat == pow2(k);
            vstd::arithmetic::power2::lemma_pow2_pos(k);
        }
        if start_address % other.alignment != 0 {
            return Err(SectionError::MisalignedStart {
                name: other.name.clone(),
                start_address,
                alignment: other.alignment,
            });
        }
        let r = Section {
            name: other.name.clone(),
            kind: other.kind,
            start_address,
            end_address,
            alignment: other.alignment,
            functions: Vec::new(),
        };
        assert(r@.functions =~= Seq::<Function>::empty());
        Ok(r)
    }

    /// A field-wise copy, equal in view to the original.
    pub fn duplicate(&self) -> (r: Section)
        ensures
            r@ == self@,
    {
        let mut fs: Vec<Function> = Vec::new();
        let mut i: usize = 0;
        while i < self.functions.len()
            invariant
                i <= self.functions@.len(),
                fs@ == self.functions@.take(i as int),
            decreases self.functions@.len() - i,
        {
            fs.push(self.functions[i].duplicate());
            i += 1;
            assert(fs@ =~= self.functions@.take(i as int));
        }
        assert(fs@ =~= self.functions@);
        Section {
            name: self.name.clone(),
            kind: self.kind,
            start_address: self.start_address,
            end_address: self.end_address,
            alignment: self.alignment,
            functions: fs,
        }
    }

    pub fn name(&self) -> (r: &String)
        ensures
            r == &self.name,
    {
        &self.name
    }

    pub fn kind(&self) -> (r: SectionKind)
        ensures
            r == self.kind,
    {
        self.kind
    }

    pub fn start_address(&self) -> (r: u32)
        ensures
            r == self.start_address,
    {
        self.start_address
    }

    pub fn end_address(&self) -> (r: u32)
        ensures
            r == self.end_address,
    {
        self.end_address
    }

    pub fn address_range(&self) -> (r: core::ops::Range<u32>)
        ensures
            r.start == self.start_address,
            r.end == self.end_address,
    {
        self.start_address..self.end_address
    }

    pub fn alignment(&self) -> (r: u32)
        ensures
            r == self.alignment,
    {
        self.alignment
    }

    pub fn size(&self) -> (r: u32)
        requires
            self.wf(),
        ensures
            r == self.end_address - self.start_address,
    {
        self.end_address - self.start_address
    }

    /// Two sections overlap when their half-open ranges intersect.
    pub fn overlaps_with(&self, other: &Section) -> (r: bool)
        ensures
            r == sections_overlap(*self, *other),
    {
        self.start_address < other.end_address && other.start_address < self.end_address
    }

    pub fn functions(&self) -> (r: &Vec<Function>)
        ensures
            r == &self.functions,
    {
        &self.functions
    }

    /// Attaches a function, keyed by its start address: a function already
    /// recorded at that address is replaced.
    #[verifier::loop_isolation(false)]
    #[verifier::rlimit(80)]
    pub fn add_function(&mut self, function: Function)
        requires
            old(self).wf(),
        ensures
            final(self).wf(),
            final(self).functions@ == insert_func(old(self).functions@, function),
            final(self).name == old(self).name,
            final(self).kind == old(self).kind,
            final(self).start_address == old(self).start_address,
            final(self).end_address == old(self).end_address,
            final(self).alignment == old(self).alignment,
    {
        let n = self.functions.len();
        let mut i: usize = 0;
        while i < n && self.functions[i].start_address < function.start_address
            invariant
                i <= n,
                forall|j: int| 0 <= j < i ==> self.functions@[j].start_address < function.start_address,
            decreases n - i,
        {
            i += 1;
        }
        let ghost s = self.functions@;
        proof {
            lemma_insert_func_at(s, function, i as int);
        }
        if i < n && self.functions[i].start_address == function.start_address {
            self.functions.remove(i);
            self.functions.insert(i, function);
            proof {
                assert(self.functions@ =~= s.take(i as int) + seq![function] + s.skip(i as int + 1));
                assert_functions_sorted_after_insert(s, function, i as int, self.functions@, true);
            }
        } else {
            self.functions.insert(i, function);
            proof {
                assert(self.functions@ =~= s.take(i as int) + seq![function] + s.skip(i as int));
                if i < n {
                    assert(s[i as int].start_address > function.start_address);
                }
                assert_functions_sorted_after_insert(s, function, i as int, self.functions@, false);
            }
        }
    }

    /// The raw bytes of this section inside a module image: none for bss,
    /// a fault when the section lies outside the image, and otherwise the
    /// exact slice `[start - base, end - base)`.
    pub fn code<'a>(&self, code: &'a [u8], base_address: u32) -> (r: Result<Option<&'a [u8]>, SectionCodeError>)
        requires
            self.wf(),
        ensures
            match r {
                Ok(None) => self.kind == SectionKind::Bss,
                Ok(Some(s)) => self.kind != SectionKind::Bss
                    && self.start_address >= base_address
                    && self.end_address - base_address <= code@.len()
                    && s@ == code@.subrange(
                        self.start_address - base_address,
                        self.end_address - base_address,
                    ),
                Err(SectionCodeError::StartsBeforeBaseAddress) => self.kind != SectionKind::Bss
                    && self.start_address < base_address,
                Err(SectionCodeError::EndsOutsideModule) => self.kind != SectionKind::Bss
                    && self.start_address >= base_address
                    && self.end_address - base_address > code@.len(),
            },
    {
        if self.kind.is_initialized() == false {
            return Ok(None);
        }
        if self.start_address < base_address {
            return Err(SectionCodeError::StartsBeforeBaseAddress);
        }
        let start = self.start_address - base_address;
        let end = self.end_address - base_address;
        if end as usize > code.len() {
            return Err(SectionCodeError::EndsOutsideModule);
        }
        Ok(Some(slice_subrange(code, start as usize, end as usize)))
    }

    /// The bytes of this section inside a loaded module.
    pub fn code_from_module<'a>(&self, module: &'a crate::module::Module)
        -> (r: Result<Option<&'a [u8]>, SectionCodeError>)
        requires
            self.wf(),
        ensures
            match r {
                Ok(None) => self.kind == SectionKind::Bss,
                Ok(Some(s)) => self.kind != SectionKind::Bss
                    && self.start_address >= module.base_address
                    && self.end_address - module.base_address <= module.code@.len()
                    && s@ == module.code@.subrange(
                        self.start_address - module.base_address,
                        self.end_address - module.base_address,
                    ),
                Err(SectionCodeError::StartsBeforeBaseAddress) => self.kind != SectionKind::Bss
                    && self.start_address < module.base_address,
                Err(SectionCodeError::EndsOutsideModule) => self.kind != SectionKind::Bss
                    && self.start_address >= module.base_address
                    && self.end_address - module.base_address > module.code@.len(),
            },
    {
        self.code(module.code.as_slice(), module.base_address)
    }

    /// The 32-bit little-endian words of the given sub-range (the whole
    /// section when none is given): the start is clipped up and the end
    /// clipped down to multiples of four, and `code` must be the full raw
    /// contents of the section.
    #[verifier::loop_isolation(false)]
    #[verifier::spinoff_prover]
    #[verifier::rlimit(80)]
    pub fn iter_words(&self, code: &[u8], range: Option<core::ops::Range<u32>>) -> (r: Vec<Word>)
        requires
            self.wf(),
            code@.len() == self.end_address - self.start_address,
            match range {
                Some(rg) => self.start_address <= rg.start && rg.end <= self.end_address
                    && rg.start <= 0xffff_fffcu32,
                None => self.start_address <= 0xffff_fffcu32,
            },
        ensures
            ({
                let rs = word_range_start(*self, range);
                let re = word_range_end(*self, range);
                let lo = align_up4(rs);
                let hi = align_dn4(re);
                &&& r@.len() == (if lo < hi { (hi - lo) / 4 } else { 0 })
                &&& forall|k: int| 0 <= k < r@.len() ==> (#[trigger] r@[k]).address == lo + 4 * k
                &&& forall|k: int| 0 <= k < r@.len() ==> (#[trigger] r@[k]).value as int
                    == le_word(code@, lo + 4 * k - self.start_address)
            }),
    {
        let (rs, re): (u32, u32) = match range {
            Some(rg) => (rg.start, rg.end),
            None => (self.start_address, self.end_address),
        };
        let lo: u32 = if rs % 4 == 0 { rs } else { rs + (4 - rs % 4) };
        let hi: u32 = re - re % 4;
        let mut r: Vec<Word> = Vec::new();
        if lo >= hi {
            return r;
        }
        let mut a: u32 = lo;
        while a < hi
            invariant
                lo <= a <= hi,
                a % 4 == 0,
                hi % 4 == 0,
                a == lo + 4 * r@.len(),
                forall|k: int| 0 <= k < r@.len() ==> (#[trigger] r@[k]).address == lo + 4 * k,
                forall|k: int| 0 <= k < r@.len() ==> (#[trigger] r@[k]).value as int
                    == le_word(code@, lo + 4 * k - self.start_address),
            decreases hi - a,
        {
            let off = (a - self.start_address) as usize;
            let b0 = code[off];
            let b1 = code[off + 1];
            let b2 = code[off + 2];
            let b3 = code[off + 3];
            let value: u32 = b0 as u32 + 256 * (b1 as u32) + 65536 * (b2 as u32)
                + 16777216 * (b3 as u32);
            proof {
                assert(value as int == le_word(code@, a - self.start_address));
                assert((hi - a) % 4 == 0);
            }
            r.push(Word { address: a, value });
            a = a + 4;
        }
        proof {
            assert(a == hi);
            assert(4 * r@.len() == hi - lo);
            assert(r@.len() == (hi - lo) / 4);
        }
        r
    }
}

/// The start of the word-iteration range.
pub open spec fn word_range_start(s: Section, range: Option<core::ops::Range<u32>>) -> u32 {
    match range {
        Some(rg) => rg.start,
        None => s.start_address,
    }
}

/// The end of the word-iteration range.
pub open spec fn word_range_end(s: Section, range: Option<core::ops::Range<u32>>) -> u32 {
    match range {
        Some(rg) => rg.end,
        None => s.end_address,
    }
}

/// The next multiple of four at or above `x`.
pub open spec fn align_up4(x: u32) -> int {
    if x as int % 4 == 0 { x as int } else { x as int + 4 - x as int % 4 }
}

/// The last multiple of four at or below `x`.
pub open spec fn align_dn4(x: u32) -> int {
    x as int - x as int % 4
}

/// The little-endian 32-bit word at byte offset `off`.
pub open spec fn le_word(b: Seq<u8>, off: int) -> int {
    b[off] + 256 * b[off + 1] + 65536 * b[off + 2] + 16777216 * b[off + 3]
}

/// A decoded 32-bit word and the address it sits at.
#[derive(Clone, Copy, Debug, PartialEq, Eq, Structural)]
pub struct Word {
    pub address: u32,
    pub value: u32,
}

pub open spec fn sections_overlap(a: Section, b: Section) -> bool {
    a.start_address < b.end_address && b.start_address < a.end_address
}

#[derive(Debug, Clone, PartialEq, Eq)]
pub enum SectionCodeError {
    StartsBeforeBaseAddress,
    EndsOutsideModule,
}

/// What validated construction promises: exactly one of success and the
/// three faults, decided in order, and on success a record carrying the
/// given fields.
pub open spec fn construction_outcome(
    name: Seq<char>,
    kind: SectionKind,
    start_address: u32,
    end_address: u32,
    alignment: u32,
    functions: Seq<Function>,
    r: Result<Section, SectionError>,
) -> bool {
    match r {
        Ok(s) => start_address <= end_address && is_power_of_two(alignment)
            && start_address as int % alignment as int == 0
            && s@ == (SectionView { name, kind, start_address, end_address, alignment, functions })
            && s.wf(),
        Err(SectionError::EndBeforeStart { name: n, start_address: s2, end_address: e2 }) =>
            end_address < start_address && n@ == name && s2 == start_address && e2 == end_address,
        Err(SectionError::AlignmentPowerOfTwo { name: n, alignment: a2 }) =>
            start_address <= end_address && !is_power_of_two(alignment)
                && n@ == name && a2 == alignment,
        Err(SectionError::MisalignedStart { name: n, start_address: s2, alignment: a2 }) =>
            start_address <= end_address && is_power_of_two(alignment)
                && start_address as int % alignment as int != 0
                && n@ == name && s2 == start_address && a2 == alignment,
    }
}

/// Sorted insert-or-replace of a function, keyed by start address.
pub open spec fn insert_func(s: Seq<Function>, f: Function) -> Seq<Function>
    decreases s.len(),
{
    if s.len() == 0 {
        seq![f]
    } else if s[0].start_address < f.start_address {
        seq![s[0]] + insert_func(s.drop_first(), f)
    } else if s[0].start_address == f.start_address {
        seq![f] + s.drop_first()
    } else {
        seq![f] + s
    }
}

proof fn lemma_insert_func_at(s: Seq<Function>, f: Function, i: int)
    requires
        0 <= i <= s.len(),
        forall|j: int| 0 <= j < i ==> s[j].start_address < f.start_address,
        i < s.len() ==> s[i].start_address >= f.start_address,
    ensures
        insert_func(s, f) == (if i < s.len() && s[i].start_address == f.start_address {
            s.take(i) + seq![f] + s.skip(i + 1)
        } else {
            s.take(i) + seq![f] + s.skip(i)
        }),
    decreases i,
{
    if i == 0 {
        if s.len() == 0 {
            assert(insert_func(s, f) =~= s.take(0) + seq![f] + s.skip(0));
        } else if s[0].start_address == f.start_address {
            assert(seq![f] + s.drop_first() =~= s.take(0) + seq![f] + s.skip(1));
        } else {
            assert(seq![f] + s =~= s.take(0) + seq![f] + s.skip(0));
        }
    } else {
        let t = s.drop_first();
        assert(forall|j: int| 0 <= j < i - 1 ==> #[trigger] t[j] == s[j + 1]);
        assert(i - 1 < t.len() ==> t[i - 1] == s[i]);
        lemma_insert_func_at(t, f, i - 1);
        if i < s.len() && s[i].start_address == f.start_address {
            assert(seq![s[0]] + (t.take(i - 1) + seq![f] + t.skip(i))
                =~= s.take(i) + seq![f] + s.skip(i + 1));
        } else {
            assert(seq![s[0]] + (t.take(i - 1) + seq![f] + t.skip(i - 1))
                =~= s.take(i) + seq![f] + s.skip(i));
        }
    }
}

proof fn assert_functions_sorted_after_insert(
    s: Seq<Function>,
    f: Function,
    i: int,
    t: Seq<Function>,
    replaced: bool,
)
    requires
        functions_ordered(s),
        0 <= i <= s.len(),
        forall|j: int| 0 <= j < i ==> s[j].start_address < f.start_address,
        replaced ==> i < s.len() && s[i].start_address == f.start_address
            && t == s.take(i) + seq![f] + s.skip(i + 1),
        !replaced ==> (i < s.len() ==> s[i].start_address > f.start_address)
            && t == s.take(i) + seq![f] + s.skip(i),
    ensures
        functions_ordered(t),
{
    assert forall|a: int, b: int| 0 <= a < b < t.len()
        implies t[a].start_address < t[b].start_address by {
        let shift: int = if replaced { 1 } else { 0 };
        if a < i {
            assert(t[a] == s[a]);
        } else if a == i {
            assert(t[a] == f);
        } else {
            assert(t[a] == s[a - 1 + shift]);
        }
        if b < i {
            assert(t[b] == s[b]);
        } else if b == i {
            assert(t[b] == f);
        } else {
            assert(t[b] == s[b - 1 + shift]);
            if i < s.len() {
                assert(b - 1 + shift >= i ==> s[b - 1 + shift].start_address >= s[i].start_address);
            }
        }
    }
}

// ---------------------------------------------------------------------------
// The section collection
// ---------------------------------------------------------------------------

/// A handle into a section collection: the position a section was added at.
#[derive(Clone, Copy, Debug, PartialEq, Eq, Structural)]
pub struct SectionIndex(pub usize);

#[derive(Debug, Clone, PartialEq, Eq)]
pub enum SectionsError {
    DuplicateName { name: String },
    Overlapping { name: String, other_name: String },
}

/// The views of a sequence of sections.
pub open spec fn views_sec(s: Seq<Section>) -> Seq<SectionView> {
    s.map_values(|x: Section| x@)
}

/// Whether some section of `s` contains `address` (half-open ranges).
pub open spec fn contains_address(s: Seq<Section>, address: u32) -> bool {
    exists|i: int| 0 <= i < s.len()
        && s[i].start_address <= address && address < s[i].end_address
}

/// An insertion-ordered family of sections: names unique, ranges disjoint.
#[derive(Debug)]
pub struct Sections {
    pub sections: Vec<Section>,
}

impl Sections {
    /// Every section is well formed, no two share a name, and no two
    /// half-open ranges intersect.
    pub open spec fn wf(&self) -> bool {
        &&& forall|i: int| 0 <= i < self.sections@.len() ==> (#[trigger] self.sections@[i]).wf()
        &&& forall|i: int, j: int| 0 <= i < j < self.sections@.len()
            ==> self.sections@[i].name@ != self.sections@[j].name@
        &&& forall|i: int, j: int| 0 <= i < j < self.sections@.len()
            ==> !sections_overlap(self.sections@[i], self.sections@[j])
    }

    pub fn new() -> (r: Sections)
        ensures
            r.sections@.len() == 0,
            r.wf(),
    {
        Sections { sections: Vec::new() }
    }

    /// Appends a section. A duplicate name or an overlap with any stored
    /// section is a fault that leaves the collection unchanged.
    #[verifier::loop_isolation(false)]
    pub fn add(&mut self, section: Section) -> (r: Result<SectionIndex, SectionsError>)
        requires
            old(self).wf(),
            section.wf(),
        ensures
            final(self).wf(),
            match r {
                Ok(idx) => idx.0 == old(self).sections@.len()
                    && final(self).sections@ == old(self).sections@.push(section)
                    && (forall|j: int| 0 <= j < old(self).sections@.len()
                        ==> old(self).sections@[j].name@ != section.name@)
                    && (forall|j: int| 0 <= j < old(self).sections@.len()
                        ==> !sections_overlap(#[trigger] old(self).sections@[j], section)),
                Err(SectionsError::DuplicateName { name }) => *final(self) == *old(self)
                    && name@ == section.name@
                    && exists|j: int| 0 <= j < old(self).sections@.len()
                        && old(self).sections@[j].name@ == section.name@,
                Err(SectionsError::Overlapping { name, other_name }) => *final(self) == *old(self)
                    && name@ == section.name@
                    && (forall|j: int| 0 <= j < old(self).sections@.len()
                        ==> old(self).sections@[j].name@ != section.name@)
                    && exists|j: int| 0 <= j < old(self).sections@.len()
                        && sections_overlap(#[trigger] old(self).sections@[j], section)
                        && other_name@ == old(self).sections@[j].name@,
            },
    {
        let n = self.sections.len();
        let mut i: usize = 0;
        while i < n
            invariant
                i <= n,
                forall|j: int| 0 <= j < i ==> self.sections@[j].name@ != section.name@,
            decreases n - i,
        {
            if chars_eq_vecs(&self.sections[i].name, &section.name) {
                return Err(SectionsError::DuplicateName { name: section.name });
            }
            i += 1;
        }
        let mut k: usize = 0;
        while k < n
            invariant
                k <= n,
                forall|j: int| 0 <= j < k ==> !sections_overlap(#[trigger] self.sections@[j], section),
            decreases n - k,
        {
            if self.sections[k].overlaps_with(&section) {
                proof {
                    assert(sections_overlap(self.sections@[k as int], section));
                }
                let other_name = self.sections[k].name.clone();
                return Err(SectionsError::Overlapping { name: section.name, other_name });
            }
            k += 1;
        }
        let index = SectionIndex(n);
        self.sections.push(section);
        proof {
            let t = self.sections@;
            let s = old(self).sections@;
            assert forall|a: int, b: int| 0 <= a < b < t.len()
                implies t[a].name@ != t[b].name@ && !sections_overlap(t[a], t[b]) by {
                if b < s.len() {
                    assert(t[a] == s[a] && t[b] == s[b]);
                } else {
                    assert(t[b] == section);
                    if a < s.len() {
                        assert(t[a] == s[a]);
                        assert(!sections_overlap(s[a], section));
                        assert(!sections_overlap(t[a], t[b])) by {
                            assert(sections_overlap(t[a], t[b]) == sections_overlap(t[b], t[a]));
                        }
                    }
                }
            }
        }
        Ok(index)
    }

    /// The section at a position handed out by `add`.
    pub fn get(&self, index: usize) -> (r: &Section)
        requires
            index < self.sections@.len(),
        ensures
            *r == self.sections@[index as int],
    {
        &self.sections[index]
    }

    /// The unique section of the given name, with its position.
    #[verifier::loop_isolation(false)]
    pub fn by_name(&self, name: &str) -> (r: Option<(SectionIndex, &Section)>)
        ensures
            match r {
                Some((idx, sec)) => idx.0 < self.sections@.len()
                    && self.sections@[idx.0 as int].name@ == name@
                    && *sec == self.sections@[idx.0 as int]
                    && (forall|j: int| 0 <= j < idx.0 ==> self.sections@[j].name@ != name@),
                None => forall|j: int| 0 <= j < self.sections@.len()
                    ==> self.sections@[j].name@ != name@,
            },
    {
        let n = self.sections.len();
        let mut i: usize = 0;
        while i < n
            invariant
                i <= n,
                forall|j: int| 0 <= j < i ==> self.sections@[j].name@ != name@,
            decreases n - i,
        {
            if chars_eq_str(&str_to_chars_of_string(&self.sections[i].name), name) {
                return Some((SectionIndex(i), &self.sections[i]));
            }
            i += 1;
        }
        None
    }

    pub fn iter(&self) -> (r: &Vec<Section>)
        ensures
            r == &self.sections,
    {
        &self.sections
    }

    pub fn len(&self) -> (r: usize)
        ensures
            r == self.sections@.len(),
    {
        self.sections.len()
    }

    /// The first section whose half-open range contains the address. Under
    /// `wf` it is the only one.
    #[verifier::loop_isolation(false)]
    pub fn get_by_contained_address(&self, address: u32) -> (r: Option<(SectionIndex, &Section)>)
        ensures
            match r {
                Some((idx, sec)) => idx.0 < self.sections@.len()
                    && *sec == self.sections@[idx.0 as int]
                    && sec.start_address <= address && address < sec.end_address
                    && (forall|j: int| 0 <= j < idx.0
                        ==> !(self.sections@[j].start_address <= address
                            && address < self.sections@[j].end_address)),
                None => !contains_address(self.sections@, address),
            },
    {
        let n = self.sections.len();
        let mut i: usize = 0;
        while i < n
            invariant
                i <= n,
                forall|j: int| 0 <= j < i
                    ==> !(self.sections@[j].start_address <= address
                        && address < self.sections@[j].end_address),
            decreases n - i,
        {
            if self.sections[i].start_address <= address && address < self.sections[i].end_address {
                return Some((SectionIndex(i), &self.sections[i]));
            }
            i += 1;
        }
        None
    }

    /// Attaches a function to the section containing its first instruction,
    /// which must exist.
    #[verifier::loop_isolation(false)]
    #[verifier::rlimit(80)]
    pub fn add_function(&mut self, function: Function)
        requires
            old(self).wf(),
            contains_address(old(self).sections@, function.start_address),
        ensures
            final(self).wf(),
            final(self).sections@.len() == old(self).sections@.len(),
            exists|i: int| 0 <= i < old(self).sections@.len()
                && (#[trigger] old(self).sections@[i]).start_address <= function.start_address
                && function.start_address < old(self).sections@[i].end_address
                && (forall|j: int| 0 <= j < i
                    ==> !(old(self).sections@[j].start_address <= function.start_address
                        && function.start_address < old(self).sections@[j].end_address))
                && final(self).sections@[i].functions@
                    == insert_func(old(self).sections@[i].functions@, function)
                && final(self).sections@[i].name@ == old(self).sections@[i].name@
                && final(self).sections@[i].kind == old(self).sections@[i].kind
                && final(self).sections@[i].start_address == old(self).sections@[i].start_address
                && final(self).sections@[i].end_address == old(self).sections@[i].end_address
                && final(self).sections@[i].alignment == old(self).sections@[i].alignment
                && (forall|j: int| 0 <= j < old(self).sections@.len() && j != i
                    ==> final(self).sections@[j] == old(self).sections@[j]),
    {
        let n = self.sections.len();
        let mut i: usize = 0;
        while i < n
            invariant
                i <= n,
                self.sections@ == old(self).sections@,
                n == self.sections@.len(),
                forall|j: int| 0 <= j < i
                    ==> !(self.sections@[j].start_address <= function.start_address
                        && function.start_address < self.sections@[j].end_address),
            decreases n - i,
        {
            if self.sections[i].start_address <= function.start_address
                && function.start_address < self.sections[i].end_address {
                let ghost s = self.sections@;
                let mut sec = self.sections.remove(i);
                sec.add_function(function);
                self.sections.insert(i, sec);
                proof {
                    assert(forall|j: int| 0 <= j < s.len() && j != i
                        ==> final(self).sections@[j] == s[j]);
                    assert forall|a: int| 0 <= a < self.sections@.len()
                        implies (#[trigger] self.sections@[a]).wf() by {
                        if a != i {
                            assert(self.sections@[a] == s[a]);
                        }
                    }
                    assert forall|a: int, b: int| 0 <= a < b < self.sections@.len()
                        implies self.sections@[a].name@ != self.sections@[b].name@
                            && !sections_overlap(self.sections@[a], self.sections@[b]) by {
                        assert(s[a].name@ != s[b].name@);
                        assert(!sections_overlap(s[a], s[b]));
                        assert(self.sections@[a].name@ == s[a].name@);
                        assert(self.sections@[b].name@ == s[b].name@);
                        assert(self.sections@[a].start_address == s[a].start_address);
                        assert(self.sections@[a].end_address == s[a].end_address);
                        assert(self.sections@[b].start_address == s[b].start_address);
                        assert(self.sections@[b].end_address == s[b].end_address);
                    }
                }
                return;
            }
            i += 1;
        }
        proof {
            assert(false);
        }
    }

    /// The sections in ascending start-address order; storage order is
    /// untouched.
    #[verifier::loop_isolation(false)]
    #[verifier::spinoff_prover]
    #[verifier::rlimit(60)]
    pub fn sorted_by_address(&self) -> (r: Vec<Section>)
        ensures
            r@.len() == self.sections@.len(),
            forall|i: int, j: int| 0 <= i < j < r@.len()
                ==> r@[i].start_address <= r@[j].start_address,
            views_sec(r@).to_multiset() == views_sec(self.sections@).to_multiset(),
    {
        broadcast use vstd::seq_lib::group_to_multiset_ensures;

        let n = self.sections.len();
        let mut r: Vec<Section> = Vec::new();
        let mut i: usize = 0;
        proof {
            assert(views_sec(r@) =~= Seq::<SectionView>::empty());
            assert(views_sec(self.sections@.take(0)) =~= Seq::<SectionView>::empty());
        }
        while i < n
            invariant
                i <= n == self.sections@.len(),
                r@.len() == i,
                forall|a: int, b: int| 0 <= a < b < r@.len()
                    ==> r@[a].start_address <= r@[b].start_address,
                views_sec(r@).to_multiset() == views_sec(self.sections@.take(i as int)).to_multiset(),
            decreases n - i,
        {
            let x = self.sections[i].duplicate();
            let m = r.len();
            let mut p: usize = 0;
            while p < m && r[p].start_address <= x.start_address
                invariant
                    p <= m == r@.len(),
                    forall|j: int| 0 <= j < p ==> r@[j].start_address <= x.start_address,
                decreases m - p,
            {
                p += 1;
            }
            let ghost old_r = r@;
            r.insert(p, x);
            proof {
                let t = r@;
                assert forall|a: int, b: int| 0 <= a < b < t.len()
                    implies t[a].start_address <= t[b].start_address by {
                    if a < p {
                        assert(t[a] == old_r[a]);
                    } else if a == p {
                        assert(t[a] == x);
                    } else {
                        assert(t[a] == old_r[a - 1]);
                    }
                    if b < p {
                        assert(t[b] == old_r[b]);
                    } else if b == p {
                        assert(t[b] == x);
                        if a < p {
                            assert(old_r[a].start_address <= x.start_address);
                        }
                    } else {
                        assert(t[b] == old_r[b - 1]);
                        if b - 1 >= p && p < m {
                            assert(old_r[b - 1].start_address > x.start_address);
                        }
                    }
                }
                assert(t.remove(p as int) =~= old_r);
                assert(t.remove(p as int).to_multiset() =~= t.to_multiset().remove(t[p as int]));
                assert(t[p as int] == x);
                assert(t.to_multiset().contains(x));
                assert(t.to_multiset() =~= old_r.to_multiset().insert(x));
                assert(views_sec(t) =~= views_sec(old_r).insert(p as int, x@));
                let vt = views_sec(t);
                assert(vt.remove(p as int) =~= views_sec(old_r));
                assert(vt.remove(p as int).to_multiset() =~= vt.to_multiset().remove(vt[p as int]));
                assert(vt[p as int] == x@);
                assert(vt.to_multiset().contains(x@));
                assert(vt.to_multiset() =~= views_sec(old_r).to_multiset().insert(x@));
                let taken = self.sections@.take(i as int + 1);
                assert(taken.drop_last() =~= self.sections@.take(i as int));
                assert(taken.last() == self.sections@[i as int]);
                assert(taken =~= self.sections@.take(i as int).push(self.sections@[i as int]));
                assert(views_sec(taken) =~= views_sec(self.sections@.take(i as int)).push(x@));
            }
            i += 1;
        }
        proof {
            assert(self.sections@.take(n as int) =~= self.sections@);
        }
        r
    }

    /// All attached functions of every section, in storage order.
    #[verifier::loop_isolation(false)]
    pub fn functions(&self) -> (r: Vec<Function>)
        ensures
            r@ == all_functions(self.sections@),
    {
        let mut r: Vec<Function> = Vec::new();
        let n = self.sections.len();
        let mut i: usize = 0;
        proof {
            assert(all_functions(self.sections@.take(0)) =~= Seq::<Function>::empty());
            assert(r@ =~= all_functions(self.sections@.take(0)));
        }
        while i < n
            invariant
                i <= n == self.sections@.len(),
                r@ == all_functions(self.sections@.take(i as int)),
            decreases n - i,
        {
            let ghost taken = self.sections@.take(i as int + 1);
            proof {
                assert(taken.drop_last() =~= self.sections@.take(i as int));
                assert(taken.last() == self.sections@[i as int]);
            }
            let fs = &self.sections[i].functions;
            let mut j: usize = 0;
            while j < fs.len()
                invariant
                    j <= fs@.len(),
                    fs == &self.sections@[i as int].functions,
                    r@ == all_functions(self.sections@.take(i as int)) + fs@.take(j as int),
                decreases fs@.len() - j,
            {
                r.push(fs[j].duplicate());
                j += 1;
                assert(r@ =~= all_functions(self.sections@.take(i as int)) + fs@.take(j as int));
            }
            proof {
                assert(fs@.take(fs@.len() as int) =~= fs@);
            }
            i += 1;
        }
        proof {
            assert(self.sections@.take(n as int) =~= self.sections@);
        }
        r
    }

    /// The least start address over all sections, none when empty.
    #[verifier::loop_isolation(false)]
    pub fn base_address(&self) -> (r: Option<u32>)
        ensures
            match r {
                Some(m) => self.sections@.len() > 0
                    && (exists|i: int| 0 <= i < self.sections@.len()
                        && (#[trigger] self.sections@[i]).start_address == m)
                    && (forall|i: int| 0 <= i < self.sections@.len()
                        ==> m <= (#[trigger] self.sections@[i]).start_address),
                None => self.sections@.len() == 0,
            },
    {
        let n = self.sections.len();
        if n == 0 {
            return None;
        }
        let mut m = self.sections[0].start_address;
        let mut i: usize = 1;
        while i < n
            invariant
                1 <= i <= n,
                exists|j: int| 0 <= j < i && (#[trigger] self.sections@[j]).start_address == m,
                forall|j: int| 0 <= j < i ==> m <= (#[trigger] self.sections@[j]).start_address,
            decreases n - i,
        {
            if self.sections[i].start_address < m {
                m = self.sections[i].start_address;
            }
            i += 1;
        }
        Some(m)
    }

    /// The greatest end address over all sections, none when empty.
    #[verifier::loop_isolation(false)]
    pub fn end_address(&self) -> (r: Option<u32>)
        ensures
            match r {
                Some(m) => self.sections@.len() > 0
                    && (exists|i: int| 0 <= i < self.sections@.len()
                        && (#[trigger] self.sections@[i]).end_address == m)
                    && (forall|i: int| 0 <= i < self.sections@.len()
                        ==> m >= (#[trigger] self.sections@[i]).end_address),
                None => self.sections@.len() == 0,
            },
    {
        let n = self.sections.len();
        if n == 0 {
            return None;
        }
        let mut m = self.sections[0].end_address;
        let mut i: usize = 1;
        while i < n
            invariant
                1 <= i <= n,
                exists|j: int| 0 <= j < i && (#[trigger] self.sections@[j]).end_address == m,
                forall|j: int| 0 <= j < i ==> m >= (#[trigger] self.sections@[j]).end_address,
            decreases n - i,
        {
            if self.sections[i].end_address > m {
                m = self.sections[i].end_address;
            }
            i += 1;
        }
        Some(m)
    }

    /// The total size of the uninitialized sections.
    #[verifier::loop_isolation(false)]
    pub fn bss_size(&self) -> (r: u32)
        requires
            self.wf(),
            bss_total(self.sections@) <= u32::MAX,
        ensures
            r == bss_total(self.sections@),
    {
        let n = self.sections.len();
        let mut total: u32 = 0;
        let mut i: usize = 0;
        proof {
            assert(self.sections@.take(0) =~= Seq::<Section>::empty());
        }
        while i < n
            invariant
                i <= n == self.sections@.len(),
                total == bss_total(self.sections@.take(i as int)),
            decreases n - i,
        {
            let ghost taken = self.sections@.take(i as int + 1);
            proof {
                assert(taken.drop_last() =~= self.sections@.take(i as int));
                assert(taken.last() == self.sections@[i as int]);
                lemma_bss_total_prefix(self.sections@, i as int + 1);
            }
            if self.sections[i].kind.is_initialized() == false {
                total = total + self.sections[i].size();
            }
            i += 1;
        }
        proof {
            assert(self.sections@.take(n as int) =~= self.sections@);
        }
        total
    }

    /// The union of the uninitialized sections' ranges: from their least
    /// start to their greatest end, none when there is no bss section.
    #[verifier::loop_isolation(false)]
    pub fn bss_range(&self) -> (r: Option<core::ops::Range<u32>>)
        ensures
            match r {
                Some(rg) => (exists|i: int| 0 <= i < self.sections@.len()
                        && (#[trigger] self.sections@[i]).kind == SectionKind::Bss
                        && self.sections@[i].start_address == rg.start)
                    && (exists|i: int| 0 <= i < self.sections@.len()
                        && (#[trigger] self.sections@[i]).kind == SectionKind::Bss
                        && self.sections@[i].end_address == rg.end)
                    && (forall|i: int| 0 <= i < self.sections@.len()
                        && (#[trigger] self.sections@[i]).kind == SectionKind::Bss
                        ==> rg.start <= self.sections@[i].start_address
                            && self.sections@[i].end_address <= rg.end),
                None => forall|i: int| 0 <= i < self.sections@.len()
                    ==> (#[trigger] self.sections@[i]).kind != SectionKind::Bss,
            },
    {
        let n = self.sections.len();
        let mut lo: u32 = 0;
        let mut hi: u32 = 0;
        let mut found = false;
        let mut i: usize = 0;
        while i < n
            invariant
                i <= n == self.sections@.len(),
                !found ==> forall|j: int| 0 <= j < i
                    ==> (#[trigger] self.sections@[j]).kind != SectionKind::Bss,
                found ==> (exists|j: int| 0 <= j < i
                        && (#[trigger] self.sections@[j]).kind == SectionKind::Bss
                        && self.sections@[j].start_address == lo)
                    && (exists|j: int| 0 <= j < i
                        && (#[trigger] self.sections@[j]).kind == SectionKind::Bss
                        && self.sections@[j].end_address == hi)
                    && (forall|j: int| 0 <= j < i
                        && (#[trigger] self.sections@[j]).kind == SectionKind::Bss
                        ==> lo <= self.sections@[j].start_address
                            && self.sections@[j].end_address <= hi),
            decreases n - i,
        {
            let is_bss = self.sections[i].kind.is_initialized() == false;
            if is_bss {
                if !found {
                    lo = self.sections[i].start_address;
                    hi = self.sections[i].end_address;
                    found = true;
                } else {
                    if self.sections[i].start_address < lo {
                        lo = self.sections[i].start_address;
                    }
                    if self.sections[i].end_address > hi {
                        hi = self.sections[i].end_address;
                    }
                }
            }
            i += 1;
        }
        if found {
            Some(lo..hi)
        } else {
            None
        }
    }
}

/// The functions attached across `s`, section by section in storage order.
pub open spec fn all_functions(s: Seq<Section>) -> Seq<Function>
    decreases s.len(),
{
    if s.len() == 0 {
        Seq::empty()
    } else {
        all_functions(s.drop_last()) + s.last().functions@
    }
}

/// The summed size of the bss sections of `s`.
pub open spec fn bss_total(s: Seq<Section>) -> int
    decreases s.len(),
{
    if s.len() == 0 {
        0
    } else {
        bss_total(s.drop_last())
            + (if s.last().kind == SectionKind::Bss {
                s.last().end_address - s.last().start_address
            } else {
                0
            })
    }
}

proof fn lemma_bss_total_nonneg(s: Seq<Section>)
    requires
        forall|j: int| 0 <= j < s.len() ==> (#[trigger] s[j]).wf(),
    ensures
        bss_total(s) >= 0,
    decreases s.len(),
{
    if s.len() > 0 {
        let t = s.drop_last();
        assert(forall|j: int| 0 <= j < t.len() ==> #[trigger] t[j] == s[j]);
        lemma_bss_total_nonneg(t);
        assert(s.last().wf());
    }
}

proof fn lemma_bss_total_prefix(s: Seq<Section>, i: int)
    requires
        0 <= i <= s.len(),
        forall|j: int| 0 <= j < s.len() ==> (#[trigger] s[j]).wf(),
    ensures
        bss_total(s.take(i)) <= bss_total(s),
        bss_total(s.take(i)) >= 0,
    decreases s.len() - i,
{
    let p = s.take(i);
    assert(forall|j: int| 0 <= j < p.len() ==> #[trigger] p[j] == s[j]);
    lemma_bss_total_nonneg(p);
    if i < s.len() {
        let t = s.take(i + 1);
        assert(t.drop_last() =~= s.take(i));
        assert(t.last() == s[i]);
        assert(s[i].wf());
        lemma_bss_total_prefix(s, i + 1);
    } else {
        assert(s.take(i) =~= s);
    }
}

// ---------------------------------------------------------------------------
// Parsing section lines
// ---------------------------------------------------------------------------

/// The outcome of reading one section header line.
pub enum SectParse {
    Blank,
    Val { name: Seq<char>, kind: SectionKind, start: u32, end: u32, align: u32 },
    BadKind { value: Seq<char> },
    BadStart { value: Seq<char> },
    BadEnd { value: Seq<char> },
    BadAlign { value: Seq<char> },
    UnknownKey { key: Seq<char> },
    MissingKey { attribute: Seq<char> },
    Invalid { err: SectErrView },
}

/// A construction fault, described mathematically.
pub enum SectErrView {
    EndBeforeStart { name: Seq<char>, start: u32, end: u32 },
    AlignmentPowerOfTwo { name: Seq<char>, alignment: u32 },
    MisalignedStart { name: Seq<char>, start: u32, alignment: u32 },
}

/// Attribute accumulator for one section line.
pub struct SectSt {
    pub kind: Option<SectionKind>,
    pub start: Option<u32>,
    pub end: Option<u32>,
    pub align: Option<u32>,
}

/// Reads the attribute tokens of a section header line.
pub open spec fn sect_fold(toks: Seq<Seq<char>>, st: SectSt) -> Result<SectSt, SectParse>
    decreases toks.len(),
{
    if toks.len() == 0 {
        Ok(st)
    } else {
        match split_attr(toks[0]) {
            None => Err(SectParse::UnknownKey { key: toks[0] }),
            Some((key, value)) => {
                if key == "kind"@ {
                    match parse_section_kind_spec(value) {
                        Some(k) => sect_fold(toks.drop_first(), SectSt { kind: Some(k), ..st }),
                        None => Err(SectParse::BadKind { value }),
                    }
                } else if key == "start"@ {
                    match parse_u32_spec(value) {
                        Some(x) => sect_fold(toks.drop_first(), SectSt { start: Some(x), ..st }),
                        None => Err(SectParse::BadStart { value }),
                    }
                } else if key == "end"@ {
                    match parse_u32_spec(value) {
                        Some(x) => sect_fold(toks.drop_first(), SectSt { end: Some(x), ..st }),
                        None => Err(SectParse::BadEnd { value }),
                    }
                } else if key == "align"@ {
                    match parse_u32_spec(value) {
                        Some(x) => sect_fold(toks.drop_first(), SectSt { align: Some(x), ..st }),
                        None => Err(SectParse::BadAlign { value }),
                    }
                } else {
                    Err(SectParse::UnknownKey { key })
                }
            },
        }
    }
}

pub open spec fn sect_init_st() -> SectSt {
    SectSt { kind: None, start: None, end: None, align: None }
}

/// The meaning of one section header line: a name token, then `kind`,
/// `start`, `end` and `align` attributes, then validated construction.
pub open spec fn parse_section_spec(line: Seq<char>) -> SectParse {
    let toks = tokens(strip_comment(line));
    if toks.len() == 0 {
        SectParse::Blank
    } else {
        let name = toks[0];
        match sect_fold(toks.drop_first(), sect_init_st()) {
            Err(e) => e,
            Ok(st) => {
                if st.kind is None {
                    SectParse::MissingKey { attribute: "kind"@ }
                } else if st.start is None {
                    SectParse::MissingKey { attribute: "start"@ }
                } else if st.end is None {
                    SectParse::MissingKey { attribute: "end"@ }
                } else if st.align is None {
                    SectParse::MissingKey { attribute: "align"@ }
                } else {
                    let start = st.start.unwrap();
                    let end = st.end.unwrap();
                    let align = st.align.unwrap();
                    if end < start {
                        SectParse::Invalid { err: SectErrView::EndBeforeStart { name, start, end } }
                    } else if !is_power_of_two(align) {
                        SectParse::Invalid { err: SectErrView::AlignmentPowerOfTwo { name, alignment: align } }
                    } else if start as int % align as int != 0 {
                        SectParse::Invalid { err: SectErrView::MisalignedStart { name, start, alignment: align } }
                    } else {
                        SectParse::Val { name, kind: st.kind.unwrap(), start, end, align }
                    }
                }
            },
        }
    }
}

#[derive(Debug, Clone, PartialEq, Eq)]
pub enum SectionParseError {
    Kind(SectionKindError),
    ParseStartAddress { context: ParseContext, value: String },
    ParseEndAddress { context: ParseContext, value: String },
    ParseAlignment { context: ParseContext, value: String },
    UnknownAttribute { context: ParseContext, key: String },
    MissingAttribute { context: ParseContext, attribute: String },
    Section { context: ParseContext, error: SectionError },
}

pub open spec fn sect_err_view(e: SectionParseError) -> SectParse {
    match e {
        SectionParseError::Kind(SectionKindError::UnknownKind { value, .. }) =>
            SectParse::BadKind { value: value@ },
        SectionParseError::ParseStartAddress { value, .. } => SectParse::BadStart { value: value@ },
        SectionParseError::ParseEndAddress { value, .. } => SectParse::BadEnd { value: value@ },
        SectionParseError::ParseAlignment { value, .. } => SectParse::BadAlign { value: value@ },
        SectionParseError::UnknownAttribute { key, .. } => SectParse::UnknownKey { key: key@ },
        SectionParseError::MissingAttribute { attribute, .. } =>
            SectParse::MissingKey { attribute: attribute@ },
        SectionParseError::Section { error, .. } => SectParse::Invalid { err: sec_err_as_view(error) },
    }
}

pub open spec fn sec_err_as_view(e: SectionError) -> SectErrView {
    match e {
        SectionError::EndBeforeStart { name, start_address, end_address } =>
            SectErrView::EndBeforeStart { name: name@, start: start_address, end: end_address },
        SectionError::AlignmentPowerOfTwo { name, alignment } =>
            SectErrView::AlignmentPowerOfTwo { name: name@, alignment },
        SectionError::MisalignedStart { name, start_address, alignment } =>
            SectErrView::MisalignedStart { name: name@, start: start_address, alignment },
    }
}

pub open spec fn sect_err_context(e: SectionParseError) -> ParseContext {
    match e {
        SectionParseError::Kind(SectionKindError::UnknownKind { context, .. }) => context,
        SectionParseError::ParseStartAddress { context, .. } => context,
        SectionParseError::ParseEndAddress { context, .. } => context,
        SectionParseError::ParseAlignment { context, .. } => context,
        SectionParseError::UnknownAttribute { context, .. } => context,
        SectionParseError::MissingAttribute { context, .. } => context,
        SectionParseError::Section { context, .. } => context,
    }
}

impl Section {
    /// Reads one section header line; blank and comment-only lines carry
    /// no section.
    #[verifier::loop_isolation(false)]
    #[verifier::spinoff_prover]
    pub fn parse(line: &str, context: &ParseContext) -> (r: Result<Option<Section>, SectionParseError>)
        ensures
            match r {
                Ok(None) => parse_section_spec(line@) is Blank,
                Ok(Some(sec)) => parse_section_spec(line@) == (SectParse::Val {
                    name: sec.name@, kind: sec.kind, start: sec.start_address,
                    end: sec.end_address, align: sec.alignment,
                }) && sec.functions@.len() == 0 && sec.wf(),
                Err(e) => parse_section_spec(line@) == sect_err_view(e)
                    && sect_err_context(e).file_path@ == context.file_path@
                    && sect_err_context(e).row == context.row,
            },
    {
        let chars = str_to_chars(line);
        let stripped = strip_comment_chars(&chars);
        let toks = tokenize(&stripped);
        let ghost tv = tokens(strip_comment(line@));
        proof {
            assert(views(toks@) == tv);
        }
        if toks.len() == 0 {
            return Ok(None);
        }
        let name_tok = &toks[0];
        proof {
            assert(tv[0] == toks@[0]@);
        }
        let mut kind: Option<SectionKind> = None;
        let mut start: Option<u32> = None;
        let mut end: Option<u32> = None;
        let mut align: Option<u32> = None;
        let mut i: usize = 1;
        let ghost rest = tv.drop_first();
        proof {
            assert(rest.skip(0) =~= rest);
        }
        while i < toks.len()
            invariant
                1 <= i <= toks@.len(),
                tv == views(toks@),
                tv.len() == toks@.len(),
                rest == tv.drop_first(),
                sect_fold(rest, sect_init_st()) == sect_fold(rest.skip(i - 1), SectSt {
                    kind: kind, start: start, end: end, align: align,
                }),
            decreases toks@.len() - i,
        {
            let ghost tail = rest.skip(i - 1);
            proof {
                assert(tail[0] == rest[i - 1]);
                assert(rest[i - 1] == tv[i as int]);
                assert(tv[i as int] == toks@[i as int]@);
                assert(tail.drop_first() =~= rest.skip(i as int));
            }
            let tok = &toks[i];
            match split_attr_chars(tok) {
                None => {
                    return Err(SectionParseError::UnknownAttribute {
                        context: context.duplicate(),
                        key: chars_to_string(tok),
                    });
                },
                Some((key, value)) => {
                    if chars_eq_str(&key, "kind") {
                        match SectionKind::parse(&value, context) {
                            Ok(k) => { kind = Some(k); },
                            Err(e) => {
                                return Err(SectionParseError::Kind(e));
                            },
                        }
                    } else if chars_eq_str(&key, "start") {
                        match parse_u32_chars(&value) {
                            Some(x) => { start = Some(x); },
                            None => {
                                return Err(SectionParseError::ParseStartAddress {
                                    context: context.duplicate(),
                                    value: chars_to_string(&value),
                                });
                            },
                        }
                    } else if chars_eq_str(&key, "end") {
                        match parse_u32_chars(&value) {
                            Some(x) => { end = Some(x); },
                            None => {
                                return Err(SectionParseError::ParseEndAddress {
                                    context: context.duplicate(),
                                    value: chars_to_string(&value),
                                });
                            },
                        }
                    } else if chars_eq_str(&key, "align") {
                        match parse_u32_chars(&value) {
                            Some(x) => { align = Some(x); },
                            None => {
                                return Err(SectionParseError::ParseAlignment {
                                    context: context.duplicate(),
                                    value: chars_to_string(&value),
                                });
                            },
                        }
                    } else {
                        return Err(SectionParseError::UnknownAttribute {
                            context: context.duplicate(),
                            key: chars_to_string(&key),
                        });
                    }
                },
            }
            i += 1;
        }
        proof {
            assert(rest.skip(i - 1) =~= Seq::<Seq<char>>::empty());
        }
        let kind = match kind {
            Some(x) => x,
            None => {
                return Err(SectionParseError::MissingAttribute {
                    context: context.duplicate(),
                    attribute: new_string("kind"),
                });
            },
        };
        let start = match start {
            Some(x) => x,
            None => {
                return Err(SectionParseError::MissingAttribute {
                    context: context.duplicate(),
                    attribute: new_string("start"),
                });
            },
        };
        let end = match end {
            Some(x) => x,
            None => {
                return Err(SectionParseError::MissingAttribute {
                    context: context.duplicate(),
                    attribute: new_string("end"),
                });
            },
        };
        let align = match align {
            Some(x) => x,
            None => {
                return Err(SectionParseError::MissingAttribute {
                    context: context.duplicate(),
                    attribute: new_string("align"),
                });
            },
        };
        match Section::new(chars_to_string(name_tok), kind, start, end, align) {
            Ok(sec) => Ok(Some(sec)),
            Err(error) => Err(SectionParseError::Section {
                context: context.duplicate(),
                error,
            }),
        }
    }
}

// ---------------------------------------------------------------------------
// Parsing inherited section lines
// ---------------------------------------------------------------------------

/// The outcome of reading one inherited section line.
pub enum InhParse {
    Blank,
    Val { name: Seq<char>, kind: SectionKind, start: u32, end: u32, align: u32 },
    NotInHeader { name: Seq<char> },
    InheritedAttribute { attribute: Seq<char> },
    BadStart { value: Seq<char> },
    BadEnd { value: Seq<char> },
    UnknownKey { key: Seq<char> },
    MissingKey { attribute: Seq<char> },
    Invalid { err: SectErrView },
}

/// Accumulator for one inherited section line.
pub struct InhSt {
    pub start: Option<u32>,
    pub end: Option<u32>,
}

/// Reads the attribute tokens of an inherited section line: only `start`
/// and `end` may appear; `kind` and `align` come from the header.
pub open spec fn inh_fold(toks: Seq<Seq<char>>, st: InhSt) -> Result<InhSt, InhParse>
    decreases toks.len(),
{
    if toks.len() == 0 {
        Ok(st)
    } else {
        match split_attr(toks[0]) {
            None => Err(InhParse::UnknownKey { key: toks[0] }),
            Some((key, value)) => {
                if key == "kind"@ {
                    Err(InhParse::InheritedAttribute { attribute: "kind"@ })
                } else if key == "start"@ {
                    match parse_u32_spec(value) {
                        Some(x) => inh_fold(toks.drop_first(), InhSt { start: Some(x), ..st }),
                        None => Err(InhParse::BadStart { value }),
                    }
                } else if key == "end"@ {
                    match parse_u32_spec(value) {
                        Some(x) => inh_fold(toks.drop_first(), InhSt { end: Some(x), ..st }),
                        None => Err(InhParse::BadEnd { value }),
                    }
                } else if key == "align"@ {
                    Err(InhParse::InheritedAttribute { attribute: "align"@ })
                } else {
                    Err(InhParse::UnknownKey { key })
                }
            },
        }
    }
}

/// The position of the first section of `secs` named `name`, or -1.
pub open spec fn first_named(secs: Seq<Section>, name: Seq<char>) -> int
    decreases secs.len(),
{
    if secs.len() == 0 {
        -1
    } else if secs[0].name@ == name {
        0
    } else {
        let r = first_named(secs.drop_first(), name);
        if r < 0 {
            -1
        } else {
            1 + r
        }
    }
}

/// `first_named` is exactly the first matching position.
pub proof fn lemma_first_named_at(secs: Seq<Section>, name: Seq<char>, k: int)
    requires
        0 <= k < secs.len(),
        secs[k].name@ == name,
        forall|j: int| 0 <= j < k ==> secs[j].name@ != name,
    ensures
        first_named(secs, name) == k,
    decreases k,
{
    if k > 0 {
        let t = secs.drop_first();
        assert(forall|j: int| 0 <= j < k - 1 ==> #[trigger] t[j] == secs[j + 1]);
        assert(t[k - 1] == secs[k]);
        lemma_first_named_at(t, name, k - 1);
    }
}

/// With no match anywhere, `first_named` is -1.
pub proof fn lemma_first_named_none(secs: Seq<Section>, name: Seq<char>)
    requires
        forall|j: int| 0 <= j < secs.len() ==> secs[j].name@ != name,
    ensures
        first_named(secs, name) == -1,
    decreases secs.len(),
{
    if secs.len() > 0 {
        let t = secs.drop_first();
        assert(forall|j: int| 0 <= j < t.len() ==> #[trigger] t[j] == secs[j + 1]);
        lemma_first_named_none(t, name);
    }
}

/// The meaning of one inherited section line against the sections already
/// declared in the file's header.
pub open spec fn parse_inherit_spec(line: Seq<char>, secs: Seq<Section>) -> InhParse {
    let toks = tokens(strip_comment(line));
    if toks.len() == 0 {
        InhParse::Blank
    } else {
        let name = toks[0];
        let j = first_named(secs, name);
        if j < 0 {
            InhParse::NotInHeader { name }
        } else {
            match inh_fold(toks.drop_first(), InhSt { start: None, end: None }) {
                Err(e) => e,
                Ok(st) => {
                    if st.start is None {
                        InhParse::MissingKey { attribute: "start"@ }
                    } else if st.end is None {
                        InhParse::MissingKey { attribute: "end"@ }
                    } else {
                        let start = st.start.unwrap();
                        let end = st.end.unwrap();
                        if end < start {
                            InhParse::Invalid { err: SectErrView::EndBeforeStart { name, start, end } }
                        } else if start as int % secs[j].alignment as int != 0 {
                            InhParse::Invalid { err: SectErrView::MisalignedStart {
                                name, start, alignment: secs[j].alignment,
                            } }
                        } else {
                            InhParse::Val {
                                name, kind: secs[j].kind, start, end, align: secs[j].alignment,
                            }
                        }
                    }
                },
            }
        }
    }
}

#[derive(Debug, Clone, PartialEq, Eq)]
pub enum SectionInheritParseError {
    NotInHeader { context: ParseContext, name: String },
    InheritedAttribute { context: ParseContext, attribute: String },
    Parse(SectionParseError),
}

pub open spec fn inh_err_view(e: SectionInheritParseError) -> InhParse {
    match e {
        SectionInheritParseError::NotInHeader { name, .. } => InhParse::NotInHeader { name: name@ },
        SectionInheritParseError::InheritedAttribute { attribute, .. } =>
            InhParse::InheritedAttribute { attribute: attribute@ },
        SectionInheritParseError::Parse(p) => match sect_err_view(p) {
            SectParse::BadStart { value } => InhParse::BadStart { value },
            SectParse::BadEnd { value } => InhParse::BadEnd { value },
            SectParse::UnknownKey { key } => InhParse::UnknownKey { key },
            SectParse::MissingKey { attribute } => InhParse::MissingKey { attribute },
            SectParse::Invalid { err } => InhParse::Invalid { err },
            _ => InhParse::Blank,
        },
    }
}

pub open spec fn inh_err_context(e: SectionInheritParseError) -> ParseContext {
    match e {
        SectionInheritParseError::NotInHeader { context, .. } => context,
        SectionInheritParseError::InheritedAttribute { context, .. } => context,
        SectionInheritParseError::Parse(p) => sect_err_context(p),
    }
}

impl Section {
    /// Reads one inherited section line: the named section must already be
    /// declared, only the range may be given, and the kind and alignment
    /// carry over unchecked.
    #[verifier::loop_isolation(false)]
    #[verifier::spinoff_prover]
    #[verifier::rlimit(80)]
    pub fn parse_inherit(line: &str, context: &ParseContext, sections: &Sections)
        -> (r: Result<Option<Section>, SectionInheritParseError>)
        requires
            sections.wf(),
        ensures
            match r {
                Ok(None) => parse_inherit_spec(line@, sections.sections@) is Blank,
                Ok(Some(sec)) => parse_inherit_spec(line@, sections.sections@) == (InhParse::Val {
                    name: sec.name@, kind: sec.kind, start: sec.start_address,
                    end: sec.end_address, align: sec.alignment,
                }) && sec.functions@.len() == 0 && sec.wf(),
                Err(e) => parse_inherit_spec(line@, sections.sections@) == inh_err_view(e)
                    && inh_err_context(e).file_path@ == context.file_path@
                    && inh_err_context(e).row == context.row,
            },
    {
        let chars = str_to_chars(line);
        let stripped = strip_comment_chars(&chars);
        let toks = tokenize(&stripped);
        let ghost tv = tokens(strip_comment(line@));
        proof {
            assert(views(toks@) == tv);
        }
        if toks.len() == 0 {
            return Ok(None);
        }
        let name_tok = &toks[0];
        proof {
            assert(tv[0] == toks@[0]@);
        }
        let name_string = chars_to_string(name_tok);
        let found = sections.by_name(name_string.as_str());
        let ghost secs = sections.sections@;
        let inherit_from: &Section = match found {
            Some((fidx, sec)) => {
                proof {
                    lemma_first_named_at(secs, tv[0], fidx.0 as int);
                    assert(secs[fidx.0 as int].wf());
                }
                sec
            },
            None => {
                proof {
                    lemma_first_named_none(secs, tv[0]);
                }
                return Err(SectionInheritParseError::NotInHeader {
                    context: context.duplicate(),
                    name: name_string,
                });
            },
        };
        let ghost jj = first_named(secs, tv[0]);
        let mut start: Option<u32> = None;
        let mut end: Option<u32> = None;
        let mut i: usize = 1;
        let ghost rest = tv.drop_first();
        proof {
            assert(rest.skip(0) =~= rest);
        }
        while i < toks.len()
            invariant
                1 <= i <= toks@.len(),
                tv == views(toks@),
                tv.len() == toks@.len(),
                rest == tv.drop_first(),
                inh_fold(rest, InhSt { start: None, end: None }) == inh_fold(rest.skip(i - 1), InhSt {
                    start: start, end: end,
                }),
            decreases toks@.len() - i,
        {
            let ghost tail = rest.skip(i - 1);
            proof {
                assert(tail[0] == rest[i - 1]);
                assert(rest[i - 1] == tv[i as int]);
                assert(tv[i as int] == toks@[i as int]@);
                assert(tail.drop_first() =~= rest.skip(i as int));
            }
            let tok = &toks[i];
            match split_attr_chars(tok) {
                None => {
                    return Err(SectionInheritParseError::Parse(SectionParseError::UnknownAttribute {
                        context: context.duplicate(),
                        key: chars_to_string(tok),
                    }));
                },
                Some((key, value)) => {
                    if chars_eq_str(&key, "kind") {
                        return Err(SectionInheritParseError::InheritedAttribute {
                            context: context.duplicate(),
                            attribute: new_string("kind"),
                        });
                    } else if chars_eq_str(&key, "start") {
                        match parse_u32_chars(&value) {
                            Some(x) => { start = Some(x); },
                            None => {
                                return Err(SectionInheritParseError::Parse(SectionParseError::ParseStartAddress {
                                    context: context.duplicate(),
                                    value: chars_to_string(&value),
                                }));
                            },
                        }
                    } else if chars_eq_str(&key, "end") {
                        match parse_u32_chars(&value) {
                            Some(x) => { end = Some(x); },
                            None => {
                                return Err(SectionInheritParseError::Parse(SectionParseError::ParseEndAddress {
                                    context: context.duplicate(),
                                    value: chars_to_string(&value),
                                }));
                            },
                        }
                    } else if chars_eq_str(&key, "align") {
                        return Err(SectionInheritParseError::InheritedAttribute {
                            context: context.duplicate(),
                            attribute: new_string("align"),
                        });
                    } else {
                        return Err(SectionInheritParseError::Parse(SectionParseError::UnknownAttribute {
                            context: context.duplicate(),
                            key: chars_to_string(&key),
                        }));
                    }
                },
            }
            i += 1;
        }
        proof {
            assert(rest.skip(i - 1) =~= Seq::<Seq<char>>::empty());
        }
        let start = match start {
            Some(x) => x,
            None => {
                return Err(SectionInheritParseError::Parse(SectionParseError::MissingAttribute {
                    context: context.duplicate(),
                    attribute: new_string("start"),
                }));
            },
        };
        let end = match end {
            Some(x) => x,
            None => {
                return Err(SectionInheritParseError::Parse(SectionParseError::MissingAttribute {
                    context: context.duplicate(),
                    attribute: new_string("end"),
                }));
            },
        };
        match Section::inherit(inherit_from, start, end) {
            Ok(sec) => Ok(Some(sec)),
            Err(error) => Err(SectionInheritParseError::Parse(SectionParseError::Section {
                context: context.duplicate(),
                error,
            })),
        }
    }
}

// ---------------------------------------------------------------------------
// Laws
// ---------------------------------------------------------------------------

/// In a well-formed collection no two distinct sections ever satisfy
/// `A.start < B.end && B.start < A.end`: insertion rejects such a pair and
/// leaves the collection unchanged (see `Sections::add`).
pub proof fn lemma_sections_never_overlap(s: &Sections, i: int, j: int)
    requires
        s.wf(),
        0 <= i < s.sections@.len(),
        0 <= j < s.sections@.len(),
        i != j,
    ensures
        !(s.sections@[i].start_address < s.sections@[j].end_address
            && s.sections@[j].start_address < s.sections@[i].end_address),
{
    if i < j {
        assert(!sections_overlap(s.sections@[i], s.sections@[j]));
    } else {
        assert(!sections_overlap(s.sections@[j], s.sections@[i]));
    }
}

/// An address equal to a nonempty section's end does not belong to that
/// section, and belongs to another section of the same well-formed
/// collection only if that section starts exactly there.
pub proof fn lemma_end_address_containment(s: &Sections, i: int, j: int, a: u32)
    requires
        s.wf(),
        0 <= i < s.sections@.len(),
        a == s.sections@[i].end_address,
        s.sections@[i].start_address < s.sections@[i].end_address,
        0 <= j < s.sections@.len(),
        s.sections@[j].start_address <= a && a < s.sections@[j].end_address,
    ensures
        j != i,
        s.sections@[j].start_address == a,
{
    assert(!(s.sections@[i].start_address <= a && a < s.sections@[i].end_address));
    if s.sections@[j].start_address < a {
        lemma_sections_never_overlap(s, i, j);
    }
}

/// Whether two strings spell the same text.
pub fn chars_eq_vecs(a: &String, b: &String) -> (r: bool)
    ensures
        r == (a@ == b@),
{
    a.eq(b)
}

/// The characters of a stored string.
pub fn str_to_chars_of_string(s: &String) -> (r: Vec<char>)
    ensures
        r@ == s@,
{
    str_to_chars(s.as_str())
}

} // verus!
