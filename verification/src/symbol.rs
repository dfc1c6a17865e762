//! Symbols: named address annotations collected in a permissive registry —
//! duplicates are stored freely, and only the unique-lookup accessors fault
//! on ambiguity.

use vstd::prelude::*;
use crate::function::{Function, JumpTable};
use crate::text::{
    ParseContext, tokens, strip_comment, split_attr, paren_name, paren_options, comma_pieces,
    split_eq, views, str_to_chars, chars_to_string, chars_eq_str, push_str_chars, push_chars,
    strip_comment_chars, tokenize, split_attr_chars, split_paren_chars, comma_pieces_chars,
    split_eq_chars, is_ws_char, is_attr_char, attr_text, lemma_strip_comment_id,
    lemma_tokens_one, lemma_tokens_cons, lemma_split_attr_at, lemma_paren_at, lemma_paren_none,
    lemma_comma_one, lemma_comma_cons, lemma_split_eq_none, lemma_split_eq_at,
};
use crate::num::{parse_u32_spec, parse_u32_chars, hex_w, uint_hex, uint_dec, hex_w_chars,
    uint_hex_chars, uint_dec_chars, lemma_uint_hex_lower, lemma_uint_dec_lower,
    lemma_parse_hex_min, lemma_parse_dec_u32};
use crate::section::le_word;
use crate::relocations::new_string;

verus! {

// ---------------------------------------------------------------------------
// Symbol kinds
// ---------------------------------------------------------------------------

/// The instruction encoding of a function symbol.
#[derive(Clone, Copy, PartialEq, Eq, Structural, Debug)]
pub enum InstructionMode {
    Auto,
    Arm,
    Thumb,
}

pub open spec fn parse_mode_spec(v: Seq<char>) -> Option<InstructionMode> {
    if v == Seq::<char>::empty() || v == "auto"@ {
        Some(InstructionMode::Auto)
    } else if v == "arm"@ {
        Some(InstructionMode::Arm)
    } else if v == "thumb"@ {
        Some(InstructionMode::Thumb)
    } else {
        None
    }
}

pub open spec fn mode_token(m: InstructionMode) -> Seq<char> {
    match m {
        InstructionMode::Auto => "auto"@,
        InstructionMode::Arm => "arm"@,
        InstructionMode::Thumb => "thumb"@,
    }
}

impl InstructionMode {
    pub fn parse(text: &Vec<char>, context: &ParseContext) -> (r: Result<InstructionMode, SymbolParseError>)
        ensures
            match r {
                Ok(m) => parse_mode_spec(text@) == Some(m),
                Err(e) => parse_mode_spec(text@) is None
                    && (e matches SymbolParseError::BadInstructionMode { context: c, value: v }
                        && v@ == text@ && c.file_path@ == context.file_path@ && c.row == context.row),
            },
    {
        if text.len() == 0 {
            proof {
                assert(text@ =~= Seq::<char>::empty());
            }
            Ok(InstructionMode::Auto)
        } else if chars_eq_str(text, "auto") {
            Ok(InstructionMode::Auto)
        } else if chars_eq_str(text, "arm") {
            Ok(InstructionMode::Arm)
        } else if chars_eq_str(text, "thumb") {
            Ok(InstructionMode::Thumb)
        } else {
            proof {
                assert(text@ != Seq::<char>::empty());
            }
            Err(SymbolParseError::BadInstructionMode {
                context: context.duplicate(),
                value: chars_to_string(text),
            })
        }
    }

    /// The mode of a function that is or is not Thumb.
    pub fn from_thumb(thumb: bool) -> (r: InstructionMode)
        ensures
            r == (if thumb { InstructionMode::Thumb } else { InstructionMode::Arm }),
    {
        if thumb {
            InstructionMode::Thumb
        } else {
            InstructionMode::Arm
        }
    }
}

#[derive(Clone, Copy, PartialEq, Eq, Structural, Debug)]
pub struct SymFunction {
    pub mode: InstructionMode,
}

impl SymFunction {
    /// Reads the options of a `function(...)` kind token: its instruction
    /// mode, empty meaning `auto`.
    pub fn parse(options: &Vec<char>, context: &ParseContext) -> (r: Result<SymFunction, SymbolParseError>)
        ensures
            match r {
                Ok(f) => parse_mode_spec(options@) == Some(f.mode),
                Err(e) => parse_mode_spec(options@) is None
                    && (e matches SymbolParseError::BadInstructionMode { context: c, value: v }
                        && v@ == options@ && c.file_path@ == context.file_path@
                        && c.row == context.row),
            },
    {
        match InstructionMode::parse(options, context) {
            Ok(mode) => Ok(SymFunction { mode }),
            Err(e) => Err(e),
        }
    }
}

#[derive(Clone, Copy, PartialEq, Eq, Structural, Debug)]
pub struct SymJumpTable {
    pub size: u32,
    pub code: bool,
}

/// The element width of a data symbol.
#[derive(Clone, Copy, PartialEq, Eq, Structural, Debug)]
pub enum DataKind {
    Byte,
    Word,
}

pub open spec fn parse_data_kind_spec(v: Seq<char>) -> Option<DataKind> {
    if v == "byte"@ {
        Some(DataKind::Byte)
    } else if v == "word"@ {
        Some(DataKind::Word)
    } else {
        None
    }
}

pub open spec fn data_kind_token(k: DataKind) -> Seq<char> {
    match k {
        DataKind::Byte => "byte"@,
        DataKind::Word => "word"@,
    }
}

impl DataKind {
    pub fn parse(text: &Vec<char>, context: &ParseContext) -> (r: Result<DataKind, SymbolParseError>)
        ensures
            match r {
                Ok(k) => parse_data_kind_spec(text@) == Some(k),
                Err(e) => parse_data_kind_spec(text@) is None
                    && (e matches SymbolParseError::BadDataKind { context: c, value: v }
                        && v@ == text@ && c.file_path@ == context.file_path@ && c.row == context.row),
            },
    {
        if chars_eq_str(text, "byte") {
            Ok(DataKind::Byte)
        } else if chars_eq_str(text, "word") {
            Ok(DataKind::Word)
        } else {
            Err(SymbolParseError::BadDataKind {
                context: context.duplicate(),
                value: chars_to_string(text),
            })
        }
    }

    /// The byte size of one element.
    pub fn size(&self) -> (r: usize)
        ensures
            r == data_kind_size(*self),
    {
        match self {
            DataKind::Byte => 1,
            DataKind::Word => 4,
        }
    }
}

pub open spec fn data_kind_size(k: DataKind) -> int {
    match k {
        DataKind::Byte => 1,
        DataKind::Word => 4,
    }
}

/// The assembly directive of a data element kind.
pub open spec fn directive_token(k: DataKind) -> Seq<char> {
    match k {
        DataKind::Byte => ".byte"@,
        DataKind::Word => ".word"@,
    }
}

/// The operand of a raw-data directive: the first element of `b`, as
/// `0x` and two hex digits for a byte, or eight for a little-endian word.
pub open spec fn raw_token(k: DataKind, b: Seq<u8>) -> Seq<char> {
    match k {
        DataKind::Byte => "0x"@ + hex_w(b[0] as nat, 2),
        DataKind::Word => "0x"@ + hex_w(le_word(b, 0) as nat, 8),
    }
}

impl DataKind {
    /// The assembly directive that emits one element of this kind.
    pub fn write_directive(&self) -> (r: String)
        ensures
            r@ == directive_token(*self),
    {
        match self {
            DataKind::Byte => new_string(".byte"),
            DataKind::Word => new_string(".word"),
        }
    }

    /// Renders the first element of `data` as a raw directive operand,
    /// which must hold at least one element.
    pub fn write_raw(&self, data: &[u8]) -> (r: String)
        requires
            data@.len() >= data_kind_size(*self),
        ensures
            r@ == raw_token(*self, data@),
    {
        let mut out: Vec<char> = Vec::new();
        push_str_chars(&mut out, "0x");
        match self {
            DataKind::Byte => {
                let h = hex_w_chars(data[0] as u32, 2);
                push_chars(&mut out, &h);
            },
            DataKind::Word => {
                let value: u32 = data[0] as u32 + 256 * (data[1] as u32)
                    + 65536 * (data[2] as u32) + 16777216 * (data[3] as u32);
                proof {
                    assert(value as int == le_word(data@, 0));
                }
                let h = hex_w_chars(value, 8);
                push_chars(&mut out, &h);
            },
        }
        assert(out@ =~= raw_token(*self, data@));
        chars_to_string(&out)
    }
}

#[derive(Clone, Copy, PartialEq, Eq, Structural, Debug)]
pub struct SymData {
    pub kind: DataKind,
    pub count: u32,
}

/// Reads data options left to right: a `count=<n>` option sets the count,
/// a bare token sets the element kind, the last occurrence winning.
pub open spec fn data_fold(ps: Seq<Seq<char>>, st: SymData) -> Result<SymData, SymParse>
    decreases ps.len(),
{
    if ps.len() == 0 {
        Ok(st)
    } else {
        match split_eq(ps[0]) {
            Some((key, value)) => {
                if key == "count"@ {
                    match parse_u32_spec(value) {
                        Some(c) => data_fold(ps.drop_first(), SymData { count: c, ..st }),
                        None => Err(SymParse::BadCount { value }),
                    }
                } else {
                    Err(SymParse::BadDataOption { key, value })
                }
            },
            None => {
                match parse_data_kind_spec(ps[0]) {
                    Some(k) => data_fold(ps.drop_first(), SymData { kind: k, ..st }),
                    None => Err(SymParse::BadDataKind { value: ps[0] }),
                }
            },
        }
    }
}

/// The meaning of a `data(...)` option list: element kind defaults to
/// `word` and count to one.
pub open spec fn parse_data_spec(options: Seq<char>) -> Result<SymData, SymParse> {
    data_fold(comma_pieces(options), SymData { kind: DataKind::Word, count: 1 })
}

impl SymData {
    #[verifier::loop_isolation(false)]
    pub fn parse(options: &Vec<char>, context: &ParseContext) -> (r: Result<SymData, SymbolParseError>)
        ensures
            match r {
                Ok(d) => parse_data_spec(options@) == Ok::<SymData, SymParse>(d),
                Err(e) => parse_data_spec(options@) == Err::<SymData, SymParse>(sym_err_view(e))
                    && sym_err_context(e).file_path@ == context.file_path@
                    && sym_err_context(e).row == context.row,
            },
    {
        let pieces = comma_pieces_chars(options);
        let ghost pv = views(pieces@);
        let mut st = SymData { kind: DataKind::Word, count: 1 };
        let mut i: usize = 0;
        proof {
            assert(pv.skip(0) =~= pv);
        }
        while i < pieces.len()
            invariant
                i <= pieces@.len(),
                pv == views(pieces@),
                pv.len() == pieces@.len(),
                parse_data_spec(options@) == data_fold(pv.skip(i as int), st),
            decreases pieces@.len() - i,
        {
            let ghost tail = pv.skip(i as int);
            proof {
                assert(tail[0] == pv[i as int]);
                assert(pv[i as int] == pieces@[i as int]@);
                assert(tail.drop_first() =~= pv.skip(i as int + 1));
            }
            let piece = &pieces[i];
            match split_eq_chars(piece) {
                Some((key, value)) => {
                    if chars_eq_str(&key, "count") {
                        match parse_u32_chars(&value) {
                            Some(c) => {
                                st = SymData { kind: st.kind, count: c };
                            },
                            None => {
                                return Err(SymbolParseError::BadCount {
                                    context: context.duplicate(),
                                    value: chars_to_string(&value),
                                });
                            },
                        }
                    } else {
                        return Err(SymbolParseError::BadDataOption {
                            context: context.duplicate(),
                            key: chars_to_string(&key),
                            value: chars_to_string(&value),
                        });
                    }
                },
                None => {
                    match DataKind::parse(piece, context) {
                        Ok(k) => {
                            st = SymData { kind: k, count: st.count };
                        },
                        Err(e) => {
                            return Err(e);
                        },
                    }
                },
            }
            i += 1;
        }
        proof {
            assert(pv.skip(i as int) =~= Seq::<Seq<char>>::empty());
        }
        Ok(st)
    }

    /// The byte size of the whole datum.
    pub fn size(&self) -> (r: usize)
        requires
            data_kind_size(self.kind) * self.count <= usize::MAX,
        ensures
            r == data_kind_size(self.kind) * self.count,
    {
        self.kind.size() * (self.count as usize)
    }
}

/// What a symbol annotates: a function, a transient analysis label, a pool
/// constant, a jump table, typed data, or uninitialized storage.
#[derive(Clone, Copy, PartialEq, Eq, Structural, Debug)]
pub enum SymbolKind {
    Function(SymFunction),
    Label,
    PoolConstant,
    JumpTable(SymJumpTable),
    Data(SymData),
    Bss,
}

/// Only functions, data and bss are persisted; the rest are analysis-local.
pub open spec fn should_write(k: SymbolKind) -> bool {
    k matches SymbolKind::Function(_) || k matches SymbolKind::Data(_) || k matches SymbolKind::Bss
}

/// The meaning of a symbol `kind:` token: `function(<mode>)`,
/// `data(<kind>[,count=<n>])` or `bss`.
pub open spec fn parse_sym_kind_spec(v: Seq<char>) -> Result<SymbolKind, SymParse> {
    let name = paren_name(v);
    let opts = paren_options(v);
    if name == "function"@ {
        match parse_mode_spec(opts) {
            Some(m) => Ok(SymbolKind::Function(SymFunction { mode: m })),
            None => Err(SymParse::BadInstructionMode { value: opts }),
        }
    } else if name == "data"@ {
        match parse_data_spec(opts) {
            Ok(d) => Ok(SymbolKind::Data(d)),
            Err(e) => Err(e),
        }
    } else if name == "bss"@ {
        Ok(SymbolKind::Bss)
    } else {
        Err(SymParse::UnknownKind { value: name })
    }
}

impl SymbolKind {
    pub fn parse(text: &Vec<char>, context: &ParseContext) -> (r: Result<SymbolKind, SymbolParseError>)
        ensures
            match r {
                Ok(k) => parse_sym_kind_spec(text@) == Ok::<SymbolKind, SymParse>(k),
                Err(e) => parse_sym_kind_spec(text@) == Err::<SymbolKind, SymParse>(sym_err_view(e))
                    && sym_err_context(e).file_path@ == context.file_path@
                    && sym_err_context(e).row == context.row,
            },
    {
        let (name, opts) = split_paren_chars(text);
        if chars_eq_str(&name, "function") {
            match SymFunction::parse(&opts, context) {
                Ok(f) => Ok(SymbolKind::Function(f)),
                Err(e) => Err(e),
            }
        } else if chars_eq_str(&name, "data") {
            match SymData::parse(&opts, context) {
                Ok(d) => Ok(SymbolKind::Data(d)),
                Err(e) => Err(e),
            }
        } else if chars_eq_str(&name, "bss") {
            Ok(SymbolKind::Bss)
        } else {
            Err(SymbolParseError::UnknownKind {
                context: context.duplicate(),
                value: chars_to_string(&name),
            })
        }
    }
}

/// The serialized `kind:` token of a persisted symbol.
pub open spec fn sym_kind_token(k: SymbolKind) -> Seq<char> {
    match k {
        SymbolKind::Function(f) => "function("@ + mode_token(f.mode) + ")"@,
        SymbolKind::Data(d) => if d.count == 1 {
            "data("@ + data_kind_token(d.kind) + ")"@
        } else {
            "data("@ + data_kind_token(d.kind) + ",count="@ + uint_dec(d.count as nat) + ")"@
        },
        _ => "bss"@,
    }
}

// ---------------------------------------------------------------------------
// One symbol
// ---------------------------------------------------------------------------

/// A named annotation of an address. Neither names nor addresses need be
/// unique across a map.
#[derive(Clone, Debug)]
pub struct Symbol {
    pub name: String,
    pub kind: SymbolKind,
    pub addr: u32,
}

/// The mathematical shape of a symbol.
pub struct SymView {
    pub name: Seq<char>,
    pub kind: SymbolKind,
    pub addr: u32,
}

impl View for Symbol {
    type V = SymView;

    open spec fn view(&self) -> SymView {
        SymView { name: self.name@, kind: self.kind, addr: self.addr }
    }
}

/// The outcome of reading one symbol line.
pub enum SymParse {
    Blank,
    Val { name: Seq<char>, kind: SymbolKind, addr: u32 },
    BadAddr { value: Seq<char> },
    BadInstructionMode { value: Seq<char> },
    BadDataKind { value: Seq<char> },
    BadDataOption { key: Seq<char>, value: Seq<char> },
    BadCount { value: Seq<char> },
    UnknownKind { value: Seq<char> },
    UnknownKey { key: Seq<char> },
    MissingKey { attribute: Seq<char> },
}

/// Attribute accumulator for one symbol line.
pub struct SymSt {
    pub kind: Option<SymbolKind>,
    pub addr: Option<u32>,
}

pub open spec fn sym_fold(toks: Seq<Seq<char>>, st: SymSt) -> Result<SymSt, SymParse>
    decreases toks.len(),
{
    if toks.len() == 0 {
        Ok(st)
    } else {
        match split_attr(toks[0]) {
            None => Err(SymParse::UnknownKey { key: toks[0] }),
            Some((key, value)) => {
                if key == "kind"@ {
                    match parse_sym_kind_spec(value) {
                        Ok(k) => sym_fold(toks.drop_first(), SymSt { kind: Some(k), ..st }),
                        Err(e) => Err(e),
                    }
                } else if key == "addr"@ {
                    match parse_u32_spec(value) {
                        Some(x) => sym_fold(toks.drop_first(), SymSt { addr: Some(x), ..st }),
                        None => Err(SymParse::BadAddr { value }),
                    }
                } else {
                    Err(SymParse::UnknownKey { key })
                }
            },
        }
    }
}

/// The meaning of one symbol line: a name token, then `kind` and `addr`.
pub open spec fn parse_symbol_spec(line: Seq<char>) -> SymParse {
    let toks = tokens(strip_comment(line));
    if toks.len() == 0 {
        SymParse::Blank
    } else {
        let name = toks[0];
        match sym_fold(toks.drop_first(), SymSt { kind: None, addr: None }) {
            Err(e) => e,
            Ok(st) => {
                if st.kind is None {
                    SymParse::MissingKey { attribute: "kind"@ }
                } else if st.addr is None {
                    SymParse::MissingKey { attribute: "addr"@ }
                } else {
                    SymParse::Val { name, kind: st.kind.unwrap(), addr: st.addr.unwrap() }
                }
            },
        }
    }
}

#[derive(Debug, Clone, PartialEq, Eq)]
pub enum SymbolParseError {
    ParseAddr { context: ParseContext, value: String },
    BadInstructionMode { context: ParseContext, value: String },
    BadDataKind { context: ParseContext, value: String },
    BadDataOption { context: ParseContext, key: String, value: String },
    BadCount { context: ParseContext, value: String },
    UnknownKind { context: ParseContext, value: String },
    UnknownAttribute { context: ParseContext, key: String },
    MissingAttribute { context: ParseContext, attribute: String },
}

pub open spec fn sym_err_view(e: SymbolParseError) -> SymParse {
    match e {
        SymbolParseError::ParseAddr { value, .. } => SymParse::BadAddr { value: value@ },
        SymbolParseError::BadInstructionMode { value, .. } =>
            SymParse::BadInstructionMode { value: value@ },
        SymbolParseError::BadDataKind { value, .. } => SymParse::BadDataKind { value: value@ },
        SymbolParseError::BadDataOption { key, value, .. } =>
            SymParse::BadDataOption { key: key@, value: value@ },
        SymbolParseError::BadCount { value, .. } => SymParse::BadCount { value: value@ },
        SymbolParseError::UnknownKind { value, .. } => SymParse::UnknownKind { value: value@ },
        SymbolParseError::UnknownAttribute { key, .. } => SymParse::UnknownKey { key: key@ },
        SymbolParseError::MissingAttribute { attribute, .. } =>
            SymParse::MissingKey { attribute: attribute@ },
    }
}

pub open spec fn sym_err_context(e: SymbolParseError) -> ParseContext {
    match e {
        SymbolParseError::ParseAddr { context, .. } => context,
        SymbolParseError::BadInstructionMode { context, .. } => context,
        SymbolParseError::BadDataKind { context, .. } => context,
        SymbolParseError::BadDataOption { context, .. } => context,
        SymbolParseError::BadCount { context, .. } => context,
        SymbolParseError::UnknownKind { context, .. } => context,
        SymbolParseError::UnknownAttribute { context, .. } => context,
        SymbolParseError::MissingAttribute { context, .. } => context,
    }
}

impl Symbol {
    /// Reads one symbol line; blank and comment-only lines carry no symbol.
    #[verifier::loop_isolation(false)]
    pub fn parse(line: &str, context: &ParseContext) -> (r: Result<Option<Symbol>, SymbolParseError>)
        ensures
            match r {
                Ok(None) => parse_symbol_spec(line@) is Blank,
                Ok(Some(sym)) => parse_symbol_spec(line@) == (SymParse::Val {
                    name: sym.name@, kind: sym.kind, addr: sym.addr,
                }),
                Err(e) => parse_symbol_spec(line@) == sym_err_view(e)
                    && sym_err_context(e).file_path@ == context.file_path@
                    && sym_err_context(e).row == context.row,
            },
    {
        let chars = str_to_chars(line);
        let stripped = strip_comment_chars(&chars);
        let toks = tokenize(&stripped);
        let ghost tv = tokens(strip_comment(line@));
        proof {
            assert(views(toks@) == tv);
        }
        if toks.len() == 0 {
            return Ok(None);
        }
        let name_tok = &toks[0];
        proof {
            assert(tv[0] == toks@[0]@);
        }
        let mut kind: Option<SymbolKind> = None;
        let mut addr: Option<u32> = None;
        let mut i: usize = 1;
        let ghost rest = tv.drop_first();
        proof {
            assert(rest.skip(0) =~= rest);
        }
        while i < toks.len()
            invariant
                1 <= i <= toks@.len(),
                tv == views(toks@),
                tv.len() == toks@.len(),
                rest == tv.drop_first(),
                sym_fold(rest, SymSt { kind: None, addr: None })
                    == sym_fold(rest.skip(i - 1), SymSt { kind: kind, addr: addr }),
            decreases toks@.len() - i,
        {
            let ghost tail = rest.skip(i - 1);
            proof {
                assert(tail[0] == rest[i - 1]);
                assert(rest[i - 1] == tv[i as int]);
                assert(tv[i as int] == toks@[i as int]@);
                assert(tail.drop_first() =~= rest.skip(i as int));
            }
            let tok = &toks[i];
            match split_attr_chars(tok) {
                None => {
                    return Err(SymbolParseError::UnknownAttribute {
                        context: context.duplicate(),
                        key: chars_to_string(tok),
                    });
                },
                Some((key, value)) => {
                    if chars_eq_str(&key, "kind") {
                        match SymbolKind::parse(&value, context) {
                            Ok(k) => { kind = Some(k); },
                            Err(e) => {
                                return Err(e);
                            },
                        }
                    } else if chars_eq_str(&key, "addr") {
                        match parse_u32_chars(&value) {
                            Some(x) => { addr = Some(x); },
                            None => {
                                return Err(SymbolParseError::ParseAddr {
                                    context: context.duplicate(),
                                    value: chars_to_string(&value),
                                });
                            },
                        }
                    } else {
                        return Err(SymbolParseError::UnknownAttribute {
                            context: context.duplicate(),
                            key: chars_to_string(&key),
                        });
                    }
                },
            }
            i += 1;
        }
        proof {
            assert(rest.skip(i - 1) =~= Seq::<Seq<char>>::empty());
        }
        let kind = match kind {
            Some(x) => x,
            None => {
                return Err(SymbolParseError::MissingAttribute {
                    context: context.duplicate(),
                    attribute: new_string("kind"),
                });
            },
        };
        let addr = match addr {
            Some(x) => x,
            None => {
                return Err(SymbolParseError::MissingAttribute {
                    context: context.duplicate(),
                    attribute: new_string("addr"),
                });
            },
        };
        Ok(Some(Symbol { name: chars_to_string(name_tok), kind, addr }))
    }

    pub fn from_function(function: &Function) -> (r: Symbol)
        ensures
            r.name@ == function.name@,
            r.kind == SymbolKind::Function(SymFunction {
                mode: if function.thumb { InstructionMode::Thumb } else { InstructionMode::Arm },
            }),
            r.addr == function.start_address,
    {
        Symbol {
            name: function.name.clone(),
            kind: SymbolKind::Function(SymFunction { mode: InstructionMode::from_thumb(function.is_thumb()) }),
            addr: function.start_address,
        }
    }

    pub fn new_label(name: String, addr: u32) -> (r: Symbol)
        ensures
            r.name == name && r.kind == SymbolKind::Label && r.addr == addr,
    {
        Symbol { name, kind: SymbolKind::Label, addr }
    }

    pub fn new_pool_constant(name: String, addr: u32) -> (r: Symbol)
        ensures
            r.name == name && r.kind == SymbolKind::PoolConstant && r.addr == addr,
    {
        Symbol { name, kind: SymbolKind::PoolConstant, addr }
    }

    pub fn new_jump_table(name: String, addr: u32, size: u32, code: bool) -> (r: Symbol)
        ensures
            r.name == name && r.kind == SymbolKind::JumpTable(SymJumpTable { size, code })
                && r.addr == addr,
    {
        Symbol { name, kind: SymbolKind::JumpTable(SymJumpTable { size, code }), addr }
    }

    pub fn new_data(name: String, addr: u32, data: SymData) -> (r: Symbol)
        ensures
            r.name == name && r.kind == SymbolKind::Data(data) && r.addr == addr,
    {
        Symbol { name, kind: SymbolKind::Data(data), addr }
    }

    /// A field-wise copy, equal to the original.
    pub fn duplicate(&self) -> (r: Symbol)
        ensures
            r == *self,
    {
        Symbol { name: self.name.clone(), kind: self.kind, addr: self.addr }
    }

    /// The text line of a persisted symbol.
    pub fn to_line(&self) -> (r: String)
        requires
            should_write(self.kind),
        ensures
            r@ == sym_line(self@),
    {
        let mut out: Vec<char> = Vec::new();
        push_str_chars(&mut out, self.name.as_str());
        push_str_chars(&mut out, " kind:");
        match self.kind {
            SymbolKind::Function(f) => {
                push_str_chars(&mut out, "function(");
                match f.mode {
                    InstructionMode::Auto => push_str_chars(&mut out, "auto"),
                    InstructionMode::Arm => push_str_chars(&mut out, "arm"),
                    InstructionMode::Thumb => push_str_chars(&mut out, "thumb"),
                }
                push_str_chars(&mut out, ")");
            },
            SymbolKind::Data(d) => {
                push_str_chars(&mut out, "data(");
                match d.kind {
                    DataKind::Byte => push_str_chars(&mut out, "byte"),
                    DataKind::Word => push_str_chars(&mut out, "word"),
                }
                if d.count != 1 {
                    push_str_chars(&mut out, ",count=");
                    let c = uint_dec_chars(d.count);
                    push_chars(&mut out, &c);
                }
                push_str_chars(&mut out, ")");
            },
            _ => {
                push_str_chars(&mut out, "bss");
            },
        }
        push_str_chars(&mut out, " addr:0x");
        let h = uint_hex_chars(self.addr);
        push_chars(&mut out, &h);
        assert(out@ =~= sym_line(self@));
        chars_to_string(&out)
    }
}

/// The serialized line of a persisted symbol: name, kind token, and the
/// address in minimal hexadecimal.
pub open spec fn sym_line(v: SymView) -> Seq<char> {
    v.name + " kind:"@ + sym_kind_token(v.kind) + " addr:0x"@ + uint_hex(v.addr as nat)
}

// ---------------------------------------------------------------------------
// The symbol map
// ---------------------------------------------------------------------------

/// The indices of the symbols at `addr`, in insertion order.
pub open spec fn matches_at(s: Seq<Symbol>, addr: u32) -> Seq<int>
    decreases s.len(),
{
    if s.len() == 0 {
        Seq::empty()
    } else {
        matches_at(s.drop_last(), addr)
            + (if s.last().addr == addr { seq![s.len() - 1] } else { Seq::empty() })
    }
}

/// The indices of the symbols named `name`, in insertion order.
pub open spec fn matches_named(s: Seq<Symbol>, name: Seq<char>) -> Seq<int>
    decreases s.len(),
{
    if s.len() == 0 {
        Seq::empty()
    } else {
        matches_named(s.drop_last(), name)
            + (if s.last().name@ == name { seq![s.len() - 1] } else { Seq::empty() })
    }
}

#[derive(Debug, Clone, PartialEq, Eq)]
pub enum SymbolMapError {
    MultipleAtAddress { address: u32, first: String, second: String },
    MultipleWithName { name: String, first_addr: u32, second_addr: u32 },
}

/// An append-only registry of symbols. Duplicate addresses and names are
/// stored freely; only the unique-lookup accessors fault on ambiguity.
#[derive(Debug)]
pub struct SymbolMap {
    pub symbols: Vec<Symbol>,
}

impl SymbolMap {
    pub fn new() -> (r: SymbolMap)
        ensures
            r.symbols@.len() == 0,
    {
        SymbolMap { symbols: Vec::new() }
    }

    pub fn from_symbols(symbols: Vec<Symbol>) -> (r: SymbolMap)
        ensures
            r.symbols@ == symbols@,
    {
        SymbolMap { symbols }
    }

    /// Unconditional append: multiplicity is allowed by design.
    pub fn add(&mut self, symbol: Symbol) -> (r: Result<(), SymbolMapError>)
        ensures
            r is Ok,
            final(self).symbols@ == old(self).symbols@.push(symbol),
    {
        self.symbols.push(symbol);
        Ok(())
    }

    /// Appends only when no symbol is indexed at the address yet.
    #[verifier::loop_isolation(false)]
    pub fn add_if_new_address(&mut self, symbol: Symbol) -> (r: Result<(), SymbolMapError>)
        ensures
            r is Ok,
            final(self).symbols@ == (if matches_at(old(self).symbols@, symbol.addr).len() == 0 {
                old(self).symbols@.push(symbol)
            } else {
                old(self).symbols@
            }),
    {
        let n = self.symbols.len();
        let mut i: usize = 0;
        proof {
            lemma_matches_at_count(self.symbols@, symbol.addr, 0);
        }
        while i < n
            invariant
                i <= n == self.symbols@.len(),
                *self == *old(self),
                forall|j: int| 0 <= j < i ==> self.symbols@[j].addr != symbol.addr,
            decreases n - i,
        {
            if self.symbols[i].addr == symbol.addr {
                proof {
                    lemma_matches_at_nonempty(self.symbols@, symbol.addr, i as int);
                }
                return Ok(());
            }
            i += 1;
        }
        proof {
            lemma_matches_at_empty(self.symbols@, symbol.addr);
        }
        self.symbols.push(symbol);
        Ok(())
    }

    pub fn add_function(&mut self, function: &Function) -> (r: Result<(), SymbolMapError>)
        ensures
            r is Ok,
            final(self).symbols@.len() == old(self).symbols@.len() + 1,
            final(self).symbols@.last().name@ == function.name@,
            final(self).symbols@.last().addr == function.start_address,
            final(self).symbols@.last().kind == SymbolKind::Function(SymFunction {
                mode: if function.thumb { InstructionMode::Thumb } else { InstructionMode::Arm },
            }),
            forall|j: int| 0 <= j < old(self).symbols@.len()
                ==> final(self).symbols@[j] == old(self).symbols@[j],
    {
        self.add(Symbol::from_function(function))
    }

    /// The synthetic name of an unnamed annotation: an underscore and the
    /// address as eight hex digits.
    pub fn label_name(addr: u32) -> (r: String)
        ensures
            r@ == seq!['_'] + hex_w(addr as nat, 8),
    {
        let mut out: Vec<char> = Vec::new();
        out.push('_');
        let h = hex_w_chars(addr, 8);
        push_chars(&mut out, &h);
        assert(out@ =~= seq!['_'] + hex_w(addr as nat, 8));
        chars_to_string(&out)
    }

    pub fn add_label(&mut self, addr: u32) -> (r: Result<(), SymbolMapError>)
        ensures
            r is Ok,
            matches_at(old(self).symbols@, addr).len() == 0
                ==> final(self).symbols@.len() == old(self).symbols@.len() + 1
                    && final(self).symbols@.last().name@ == seq!['_'] + hex_w(addr as nat, 8)
                    && final(self).symbols@.last().kind == SymbolKind::Label
                    && final(self).symbols@.last().addr == addr
                    && (forall|j: int| 0 <= j < old(self).symbols@.len()
                        ==> final(self).symbols@[j] == old(self).symbols@[j]),
            matches_at(old(self).symbols@, addr).len() != 0
                ==> final(self).symbols@ == old(self).symbols@,
    {
        let name = SymbolMap::label_name(addr);
        self.add_if_new_address(Symbol::new_label(name, addr))
    }

    pub fn add_pool_constant(&mut self, addr: u32) -> (r: Result<(), SymbolMapError>)
        ensures
            r is Ok,
            matches_at(old(self).symbols@, addr).len() == 0
                ==> final(self).symbols@.len() == old(self).symbols@.len() + 1
                    && final(self).symbols@.last().name@ == seq!['_'] + hex_w(addr as nat, 8)
                    && final(self).symbols@.last().kind == SymbolKind::PoolConstant
                    && final(self).symbols@.last().addr == addr
                    && (forall|j: int| 0 <= j < old(self).symbols@.len()
                        ==> final(self).symbols@[j] == old(self).symbols@[j]),
            matches_at(old(self).symbols@, addr).len() != 0
                ==> final(self).symbols@ == old(self).symbols@,
    {
        let name = SymbolMap::label_name(addr);
        self.add_if_new_address(Symbol::new_pool_constant(name, addr))
    }

    pub fn add_jump_table(&mut self, table: &JumpTable) -> (r: Result<(), SymbolMapError>)
        ensures
            r is Ok,
            final(self).symbols@.len() == old(self).symbols@.len() + 1,
            final(self).symbols@.last().name@ == seq!['_'] + hex_w(table.address as nat, 8),
            final(self).symbols@.last().kind == SymbolKind::JumpTable(SymJumpTable {
                size: table.size,
                code: table.code,
            }),
            final(self).symbols@.last().addr == table.address,
            forall|j: int| 0 <= j < old(self).symbols@.len()
                ==> final(self).symbols@[j] == old(self).symbols@[j],
    {
        let name = SymbolMap::label_name(table.address);
        self.add(Symbol::new_jump_table(name, table.address, table.size, table.code))
    }

    pub fn add_data(&mut self, name: Option<String>, addr: u32, data: SymData) -> (r: Result<(), SymbolMapError>)
        ensures
            r is Ok,
            final(self).symbols@.len() == old(self).symbols@.len() + 1,
            final(self).symbols@.last().name@ == (match name {
                Some(n) => n@,
                None => seq!['_'] + hex_w(addr as nat, 8),
            }),
            final(self).symbols@.last().kind == SymbolKind::Data(data),
            final(self).symbols@.last().addr == addr,
            forall|j: int| 0 <= j < old(self).symbols@.len()
                ==> final(self).symbols@[j] == old(self).symbols@[j],
    {
        let n = match name {
            Some(n) => n,
            None => SymbolMap::label_name(addr),
        };
        self.add(Symbol::new_data(n, addr, data))
    }
}

// ---------------------------------------------------------------------------
// Lookups
// ---------------------------------------------------------------------------

impl SymbolMap {
    /// All symbols at an address, with their indices, in insertion order;
    /// none when the address is unknown.
    #[verifier::loop_isolation(false)]
    pub fn for_address(&self, address: u32) -> (r: Option<Vec<(usize, Symbol)>>)
        ensures
            match r {
                Some(v) => {
                    let m = matches_at(self.symbols@, address);
                    v@.len() == m.len() && m.len() > 0
                        && forall|k: int| 0 <= k < v@.len()
                            ==> (#[trigger] v@[k]).0 == m[k] && v@[k].1 == self.symbols@[m[k]]
                },
                None => matches_at(self.symbols@, address).len() == 0,
            },
    {
        let n = self.symbols.len();
        let mut v: Vec<(usize, Symbol)> = Vec::new();
        let mut i: usize = 0;
        proof {
            assert(matches_at(self.symbols@.take(0), address) =~= Seq::<int>::empty());
        }
        while i < n
            invariant
                i <= n == self.symbols@.len(),
                v@.len() == matches_at(self.symbols@.take(i as int), address).len(),
                forall|k: int| 0 <= k < v@.len()
                    ==> (#[trigger] v@[k]).0 == matches_at(self.symbols@.take(i as int), address)[k]
                        && v@[k].1 == self.symbols@[matches_at(self.symbols@.take(i as int), address)[k]],
            decreases n - i,
        {
            let ghost taken = self.symbols@.take(i as int + 1);
            proof {
                assert(taken.drop_last() =~= self.symbols@.take(i as int));
                assert(taken.last() == self.symbols@[i as int]);
                lemma_matches_at_count(self.symbols@.take(i as int), address, 0);
            }
            if self.symbols[i].addr == address {
                v.push((i, self.symbols[i].duplicate()));
            }
            i += 1;
        }
        proof {
            assert(self.symbols@.take(n as int) =~= self.symbols@);
        }
        if v.len() == 0 {
            None
        } else {
            Some(v)
        }
    }

    /// The unique symbol at an address: none when the address is unknown,
    /// a fault naming the first two symbols when it is ambiguous.
    pub fn by_address(&self, address: u32) -> (r: Result<Option<(usize, Symbol)>, SymbolMapError>)
        ensures
            ({
                let m = matches_at(self.symbols@, address);
                match r {
                    Ok(None) => m.len() == 0,
                    Ok(Some((i, sym))) => m.len() == 1 && i == m[0] && sym == self.symbols@[m[0]],
                    Err(e) => m.len() >= 2
                        && (e matches SymbolMapError::MultipleAtAddress { address: a, first, second }
                            && a == address && first@ == self.symbols@[m[0]].name@
                            && second@ == self.symbols@[m[1]].name@),
                }
            }),
    {
        match self.for_address(address) {
            None => Ok(None),
            Some(v) => {
                if v.len() == 1 {
                    let (i, sym) = (v[0].0, v[0].1.duplicate());
                    Ok(Some((i, sym)))
                } else {
                    Err(SymbolMapError::MultipleAtAddress {
                        address,
                        first: v[0].1.name.clone(),
                        second: v[1].1.name.clone(),
                    })
                }
            },
        }
    }

    /// All symbols of a name, with their indices, in insertion order.
    #[verifier::loop_isolation(false)]
    pub fn for_name(&self, name: &str) -> (r: Option<Vec<(usize, Symbol)>>)
        ensures
            match r {
                Some(v) => {
                    let m = matches_named(self.symbols@, name@);
                    v@.len() == m.len() && m.len() > 0
                        && forall|k: int| 0 <= k < v@.len()
                            ==> (#[trigger] v@[k]).0 == m[k] && v@[k].1 == self.symbols@[m[k]]
                },
                None => matches_named(self.symbols@, name@).len() == 0,
            },
    {
        let n = self.symbols.len();
        let mut v: Vec<(usize, Symbol)> = Vec::new();
        let mut i: usize = 0;
        proof {
            assert(matches_named(self.symbols@.take(0), name@) =~= Seq::<int>::empty());
        }
        while i < n
            invariant
                i <= n == self.symbols@.len(),
                v@.len() == matches_named(self.symbols@.take(i as int), name@).len(),
                forall|k: int| 0 <= k < v@.len()
                    ==> (#[trigger] v@[k]).0 == matches_named(self.symbols@.take(i as int), name@)[k]
                        && v@[k].1 == self.symbols@[matches_named(self.symbols@.take(i as int), name@)[k]],
            decreases n - i,
        {
            let ghost taken = self.symbols@.take(i as int + 1);
            proof {
                assert(taken.drop_last() =~= self.symbols@.take(i as int));
                assert(taken.last() == self.symbols@[i as int]);
                lemma_matches_named_count(self.symbols@.take(i as int), name@);
            }
            if chars_eq_str(&str_to_chars(self.symbols[i].name.as_str()), name) {
                v.push((i, self.symbols[i].duplicate()));
            }
            i += 1;
        }
        proof {
            assert(self.symbols@.take(n as int) =~= self.symbols@);
        }
        if v.len() == 0 {
            None
        } else {
            Some(v)
        }
    }

    /// The unique symbol of a name: none when the name is unknown, a fault
    /// naming the first two addresses when it is ambiguous.
    pub fn by_name(&self, name: &str) -> (r: Result<Option<(usize, Symbol)>, SymbolMapError>)
        ensures
            ({
                let m = matches_named(self.symbols@, name@);
                match r {
                    Ok(None) => m.len() == 0,
                    Ok(Some((i, sym))) => m.len() == 1 && i == m[0] && sym == self.symbols@[m[0]],
                    Err(e) => m.len() >= 2
                        && (e matches SymbolMapError::MultipleWithName { name: nm, first_addr, second_addr }
                            && nm@ == name@ && first_addr == self.symbols@[m[0]].addr
                            && second_addr == self.symbols@[m[1]].addr),
                }
            }),
    {
        match self.for_name(name) {
            None => Ok(None),
            Some(v) => {
                if v.len() == 1 {
                    let (i, sym) = (v[0].0, v[0].1.duplicate());
                    Ok(Some((i, sym)))
                } else {
                    Err(SymbolMapError::MultipleWithName {
                        name: new_string(name),
                        first_addr: v[0].1.addr,
                        second_addr: v[1].1.addr,
                    })
                }
            },
        }
    }

    /// The unique label at an address, if the unique symbol there is one.
    pub fn get_label(&self, addr: u32) -> (r: Option<Symbol>)
        requires
            matches_at(self.symbols@, addr).len() <= 1,
        ensures
            ({
                let m = matches_at(self.symbols@, addr);
                match r {
                    Some(sym) => m.len() == 1 && sym == self.symbols@[m[0]]
                        && sym.kind == SymbolKind::Label,
                    None => m.len() == 0 || self.symbols@[m[0]].kind != SymbolKind::Label,
                }
            }),
    {
        match self.by_address(addr) {
            Ok(Some((_, sym))) => {
                if matches!(sym.kind, SymbolKind::Label) {
                    Some(sym)
                } else {
                    None
                }
            },
            Ok(None) => None,
            Err(_) => {
                proof {
                    assert(false);
                }
                None
            },
        }
    }

    /// The unique pool constant at an address, if the unique symbol there
    /// is one.
    pub fn get_pool_constant(&self, addr: u32) -> (r: Option<Symbol>)
        requires
            matches_at(self.symbols@, addr).len() <= 1,
        ensures
            ({
                let m = matches_at(self.symbols@, addr);
                match r {
                    Some(sym) => m.len() == 1 && sym == self.symbols@[m[0]]
                        && sym.kind == SymbolKind::PoolConstant,
                    None => m.len() == 0 || self.symbols@[m[0]].kind != SymbolKind::PoolConstant,
                }
            }),
    {
        match self.by_address(addr) {
            Ok(Some((_, sym))) => {
                if matches!(sym.kind, SymbolKind::PoolConstant) {
                    Some(sym)
                } else {
                    None
                }
            },
            Ok(None) => None,
            Err(_) => {
                proof {
                    assert(false);
                }
                None
            },
        }
    }

    /// The unique jump table at an address, if the unique symbol there is
    /// one.
    pub fn get_jump_table(&self, addr: u32) -> (r: Option<(SymJumpTable, Symbol)>)
        requires
            matches_at(self.symbols@, addr).len() <= 1,
        ensures
            ({
                let m = matches_at(self.symbols@, addr);
                match r {
                    Some((jt, sym)) => m.len() == 1 && sym == self.symbols@[m[0]]
                        && sym.kind == SymbolKind::JumpTable(jt),
                    None => m.len() == 0
                        || !(self.symbols@[m[0]].kind matches SymbolKind::JumpTable(_)),
                }
            }),
    {
        match self.by_address(addr) {
            Ok(Some((_, sym))) => {
                match sym.kind {
                    SymbolKind::JumpTable(jt) => Some((jt, sym)),
                    _ => None,
                }
            },
            Ok(None) => None,
            Err(_) => {
                proof {
                    assert(false);
                }
                None
            },
        }
    }

    /// The unique data symbol at an address, if the unique symbol there is
    /// one.
    pub fn get_data(&self, addr: u32) -> (r: Option<(SymData, Symbol)>)
        requires
            matches_at(self.symbols@, addr).len() <= 1,
        ensures
            ({
                let m = matches_at(self.symbols@, addr);
                match r {
                    Some((d, sym)) => m.len() == 1 && sym == self.symbols@[m[0]]
                        && sym.kind == SymbolKind::Data(d),
                    None => m.len() == 0
                        || !(self.symbols@[m[0]].kind matches SymbolKind::Data(_)),
                }
            }),
    {
        match self.by_address(addr) {
            Ok(Some((_, sym))) => {
                match sym.kind {
                    SymbolKind::Data(d) => Some((d, sym)),
                    _ => None,
                }
            },
            Ok(None) => None,
            Err(_) => {
                proof {
                    assert(false);
                }
                None
            },
        }
    }

    /// The name of the unique symbol at a destination address; nothing
    /// when the address has no symbol or more than one — ambiguity here is
    /// tolerated, not escalated.
    #[verifier::loop_isolation(false)]
    pub fn lookup_symbol_name(&self, source: u32, destination: u32) -> (r: Option<&String>)
        ensures
            ({
                let m = matches_at(self.symbols@, destination);
                match r {
                    Some(nm) => m.len() == 1 && nm == &self.symbols@[m[0]].name,
                    None => m.len() != 1,
                }
            }),
    {
        let n = self.symbols.len();
        let mut count: usize = 0;
        let mut first: usize = 0;
        let mut i: usize = 0;
        proof {
            assert(matches_at(self.symbols@.take(0), destination) =~= Seq::<int>::empty());
        }
        while i < n
            invariant
                i <= n == self.symbols@.len(),
                count == matches_at(self.symbols@.take(i as int), destination).len(),
                count > 0 ==> first == matches_at(self.symbols@.take(i as int), destination)[0]
                    && first < i,
            decreases n - i,
        {
            let ghost taken = self.symbols@.take(i as int + 1);
            proof {
                assert(taken.drop_last() =~= self.symbols@.take(i as int));
                assert(taken.last() == self.symbols@[i as int]);
                lemma_matches_at_count(self.symbols@.take(i as int), destination, 0);
            }
            if self.symbols[i].addr == destination {
                if count == 0 {
                    first = i;
                }
                count += 1;
            }
            i += 1;
        }
        proof {
            assert(self.symbols@.take(n as int) =~= self.symbols@);
        }
        if count == 1 {
            Some(&self.symbols[first].name)
        } else {
            None
        }
    }
}

proof fn lemma_matches_named_count(s: Seq<Symbol>, name: Seq<char>)
    ensures
        matches_named(s, name).len() <= s.len(),
        forall|k: int| 0 <= k < matches_named(s, name).len()
            ==> 0 <= #[trigger] matches_named(s, name)[k] < s.len()
                && s[matches_named(s, name)[k]].name@ == name,
    decreases s.len(),
{
    if s.len() > 0 {
        lemma_matches_named_count(s.drop_last(), name);
        assert(forall|j: int| 0 <= j < s.len() - 1 ==> #[trigger] s.drop_last()[j] == s[j]);
    }
}

proof fn lemma_matches_at_count(s: Seq<Symbol>, addr: u32, dummy: int)
    ensures
        matches_at(s, addr).len() <= s.len(),
        forall|k: int| 0 <= k < matches_at(s, addr).len()
            ==> 0 <= #[trigger] matches_at(s, addr)[k] < s.len()
                && s[matches_at(s, addr)[k]].addr == addr,
    decreases s.len(),
{
    if s.len() > 0 {
        lemma_matches_at_count(s.drop_last(), addr, dummy);
        assert(forall|j: int| 0 <= j < s.len() - 1 ==> #[trigger] s.drop_last()[j] == s[j]);
    }
}

proof fn lemma_matches_at_nonempty(s: Seq<Symbol>, addr: u32, i: int)
    requires
        0 <= i < s.len(),
        s[i].addr == addr,
    ensures
        matches_at(s, addr).len() > 0,
    decreases s.len(),
{
    if s.len() > 0 {
        if i == s.len() - 1 {
        } else {
            assert(s.drop_last()[i] == s[i]);
            lemma_matches_at_nonempty(s.drop_last(), addr, i);
        }
    }
}

proof fn lemma_matches_at_empty(s: Seq<Symbol>, addr: u32)
    requires
        forall|j: int| 0 <= j < s.len() ==> (#[trigger] s[j]).addr != addr,
    ensures
        matches_at(s, addr).len() == 0,
    decreases s.len(),
{
    if s.len() > 0 {
        assert(forall|j: int| 0 <= j < s.len() - 1 ==> #[trigger] s.drop_last()[j] == s[j]);
        lemma_matches_at_empty(s.drop_last(), addr);
    }
}

// ---------------------------------------------------------------------------
// Loading and writing whole files
// ---------------------------------------------------------------------------

pub open spec fn sym_views(s: Seq<Symbol>) -> Seq<SymView> {
    s.map_values(|x: Symbol| x@)
}

pub open spec fn sym_line_views(ls: Seq<String>) -> Seq<Seq<char>> {
    ls.map_values(|l: String| l@)
}

/// Loads symbol lines from index `i` on; every parsed symbol is appended,
/// duplicates included, and the first faulty line aborts the load.
pub open spec fn sym_load_from(ls: Seq<Seq<char>>, i: int, acc: Seq<SymView>)
    -> Result<Seq<SymView>, (int, SymParse)>
    decreases ls.len() - i when 0 <= i <= ls.len()
{
    if i >= ls.len() {
        Ok(acc)
    } else {
        match parse_symbol_spec(ls[i]) {
            SymParse::Blank => sym_load_from(ls, i + 1, acc),
            SymParse::Val { name, kind, addr } => sym_load_from(ls, i + 1,
                acc.push(SymView { name, kind, addr })),
            e => Err((i, e)),
        }
    }
}

/// The meaning of a whole symbol file, given as its lines.
pub open spec fn sym_load(ls: Seq<Seq<char>>) -> Result<Seq<SymView>, (int, SymParse)> {
    sym_load_from(ls, 0, Seq::empty())
}

/// The persisted symbols of `s`, in stored order.
pub open spec fn write_filter(s: Seq<Symbol>) -> Seq<Symbol>
    decreases s.len(),
{
    if s.len() == 0 {
        Seq::empty()
    } else {
        write_filter(s.drop_last())
            + (if should_write(s.last().kind) { seq![s.last()] } else { Seq::empty() })
    }
}

/// Inserts a symbol after every stored symbol at the same or a lower
/// address, so that equal addresses keep their insertion order.
pub open spec fn insert_stable(acc: Seq<Symbol>, x: Symbol) -> Seq<Symbol>
    decreases acc.len(),
{
    if acc.len() == 0 {
        seq![x]
    } else if acc[0].addr <= x.addr {
        seq![acc[0]] + insert_stable(acc.drop_first(), x)
    } else {
        seq![x] + acc
    }
}

/// The stable address sort of a symbol sequence.
pub open spec fn sort_fold(s: Seq<Symbol>, acc: Seq<Symbol>) -> Seq<Symbol>
    decreases s.len(),
{
    if s.len() == 0 {
        acc
    } else {
        sort_fold(s.drop_first(), insert_stable(acc, s[0]))
    }
}

proof fn lemma_insert_stable_at(s: Seq<Symbol>, x: Symbol, i: int)
    requires
        0 <= i <= s.len(),
        forall|j: int| 0 <= j < i ==> s[j].addr <= x.addr,
        i < s.len() ==> s[i].addr > x.addr,
    ensures
        insert_stable(s, x) == s.take(i) + seq![x] + s.skip(i),
    decreases i,
{
    if i == 0 {
        if s.len() == 0 {
            assert(insert_stable(s, x) =~= s.take(0) + seq![x] + s.skip(0));
        } else {
            assert(seq![x] + s =~= s.take(0) + seq![x] + s.skip(0));
        }
    } else {
        let t = s.drop_first();
        assert(forall|j: int| 0 <= j < i - 1 ==> #[trigger] t[j] == s[j + 1]);
        assert(i - 1 < t.len() ==> t[i - 1] == s[i]);
        lemma_insert_stable_at(t, x, i - 1);
        assert(seq![s[0]] + (t.take(i - 1) + seq![x] + t.skip(i - 1))
            =~= s.take(i) + seq![x] + s.skip(i));
    }
}

impl SymbolMap {
    /// Builds a map from the lines of a symbol file: every record line is
    /// appended in order, and the first faulty line aborts the load.
    #[verifier::loop_isolation(false)]
    pub fn from_lines(lines: &Vec<String>, path: &str) -> (r: Result<SymbolMap, SymbolParseError>)
        ensures
            match r {
                Ok(m) => sym_load(sym_line_views(lines@))
                    == Ok::<Seq<SymView>, (int, SymParse)>(sym_views(m.symbols@)),
                Err(e) => exists|i: int| 0 <= i < lines@.len()
                    && sym_load(sym_line_views(lines@))
                        == Err::<Seq<SymView>, (int, SymParse)>((i, sym_err_view(e)))
                    && sym_err_context(e).row == i + 1
                    && sym_err_context(e).file_path@ == path@,
            },
    {
        let ghost lv = sym_line_views(lines@);
        let mut map = SymbolMap::new();
        let mut i: usize = 0;
        proof {
            assert(sym_views(map.symbols@) =~= Seq::<SymView>::empty());
        }
        while i < lines.len()
            invariant
                i <= lines@.len(),
                lv == sym_line_views(lines@),
                lv.len() == lines@.len(),
                sym_load(lv) == sym_load_from(lv, i as int, sym_views(map.symbols@)),
            decreases lines@.len() - i,
        {
            proof {
                assert(lv[i as int] == lines@[i as int]@);
            }
            let context = ParseContext { file_path: new_string(path), row: i + 1 };
            match Symbol::parse(lines[i].as_str(), &context) {
                Ok(Option::Some(sym)) => {
                    let ghost old_syms = map.symbols@;
                    let rr = map.add(sym);
                    proof {
                        assert(sym_views(map.symbols@) =~= sym_views(old_syms).push(sym@));
                    }
                },
                Ok(Option::None) => {},
                Err(e) => {
                    return Err(e);
                },
            }
            i += 1;
        }
        Ok(map)
    }

    /// The text lines of this map: the persisted symbols only, in
    /// ascending address order, insertion order among equal addresses.
    #[verifier::loop_isolation(false)]
    pub fn to_lines(&self) -> (r: Vec<String>)
        ensures
            ({
                let ordered = sort_fold(write_filter(self.symbols@), Seq::empty());
                r@.len() == ordered.len()
                    && forall|k: int| 0 <= k < r@.len() ==> r@[k]@ == sym_line(ordered[k]@)
            }),
    {
        let n = self.symbols.len();
        let mut picked: Vec<Symbol> = Vec::new();
        let mut i: usize = 0;
        proof {
            assert(write_filter(self.symbols@.take(0)) =~= Seq::<Symbol>::empty());
        }
        while i < n
            invariant
                i <= n == self.symbols@.len(),
                picked@ == write_filter(self.symbols@.take(i as int)),
                forall|k: int| 0 <= k < picked@.len() ==> should_write((#[trigger] picked@[k]).kind),
            decreases n - i,
        {
            let ghost taken = self.symbols@.take(i as int + 1);
            proof {
                assert(taken.drop_last() =~= self.symbols@.take(i as int));
                assert(taken.last() == self.symbols@[i as int]);
            }
            let w = match self.symbols[i].kind {
                SymbolKind::Function(_) => true,
                SymbolKind::Data(_) => true,
                SymbolKind::Bss => true,
                _ => false,
            };
            if w {
                picked.push(self.symbols[i].duplicate());
                assert(picked@ =~= write_filter(self.symbols@.take(i as int + 1)));
            } else {
                assert(picked@ =~= write_filter(self.symbols@.take(i as int + 1)));
            }
            i += 1;
        }
        proof {
            assert(self.symbols@.take(n as int) =~= self.symbols@);
        }
        let m = picked.len();
        let mut acc: Vec<Symbol> = Vec::new();
        let mut j: usize = 0;
        proof {
            assert(picked@.skip(0) =~= picked@);
        }
        while j < m
            invariant
                j <= m == picked@.len(),
                sort_fold(picked@, Seq::empty()) == sort_fold(picked@.skip(j as int), acc@),
                forall|k: int| 0 <= k < acc@.len() ==> should_write((#[trigger] acc@[k]).kind),
                forall|a: int, b: int| 0 <= a < b < acc@.len() ==> acc@[a].addr <= acc@[b].addr,
            decreases m - j,
        {
            let ghost tail = picked@.skip(j as int);
            proof {
                assert(tail[0] == picked@[j as int]);
                assert(tail.drop_first() =~= picked@.skip(j as int + 1));
            }
            let x = picked[j].duplicate();
            let mut p: usize = 0;
            while p < acc.len() && acc[p].addr <= x.addr
                invariant
                    p <= acc@.len(),
                    forall|k: int| 0 <= k < p ==> acc@[k].addr <= x.addr,
                decreases acc@.len() - p,
            {
                p += 1;
            }
            let ghost old_acc = acc@;
            proof {
                lemma_insert_stable_at(old_acc, x, p as int);
            }
            acc.insert(p, x);
            proof {
                assert(acc@ =~= old_acc.take(p as int) + seq![x] + old_acc.skip(p as int));
                assert(acc@ == insert_stable(old_acc, x));
                assert forall|a: int, b: int| 0 <= a < b < acc@.len()
                    implies acc@[a].addr <= acc@[b].addr by {
                    if a < p {
                        assert(acc@[a] == old_acc[a]);
                    } else if a == p {
                        assert(acc@[a] == x);
                    } else {
                        assert(acc@[a] == old_acc[a - 1]);
                    }
                    if b < p {
                        assert(acc@[b] == old_acc[b]);
                    } else if b == p {
                        assert(acc@[b] == x);
                    } else {
                        assert(acc@[b] == old_acc[b - 1]);
                        if b - 1 >= p && p < old_acc.len() {
                            assert(old_acc[b - 1].addr > x.addr);
                        }
                    }
                }
                assert forall|k: int| 0 <= k < acc@.len()
                    implies should_write((#[trigger] acc@[k]).kind) by {
                    if k < p {
                        assert(acc@[k] == old_acc[k]);
                    } else if k == p {
                        assert(acc@[k] == x);
                    } else {
                        assert(acc@[k] == old_acc[k - 1]);
                    }
                }
            }
            j += 1;
        }
        proof {
            assert(picked@.skip(m as int) =~= Seq::<Symbol>::empty());
        }
        let ghost ordered = sort_fold(write_filter(self.symbols@), Seq::empty());
        let mut out: Vec<String> = Vec::new();
        let mut k: usize = 0;
        while k < acc.len()
            invariant
                k <= acc@.len(),
                acc@ == ordered,
                forall|q: int| 0 <= q < acc@.len() ==> should_write((#[trigger] acc@[q]).kind),
                out@.len() == k,
                forall|q: int| 0 <= q < k ==> out@[q]@ == sym_line((#[trigger] acc@[q])@),
            decreases acc@.len() - k,
        {
            let line = acc[k].to_line();
            out.push(line);
            k += 1;
        }
        out
    }
}

// ---------------------------------------------------------------------------
// Laws
// ---------------------------------------------------------------------------

/// The text token of an instruction mode reads back as that mode.
pub proof fn lemma_mode_token_round(m: InstructionMode)
    ensures
        parse_mode_spec(mode_token(m)) == Some(m),
{
    reveal_strlit("auto");
    reveal_strlit("arm");
    reveal_strlit("thumb");
    assert("arm"@ != Seq::<char>::empty()) by {
        assert("arm"@.len() == 3);
    }
    assert("arm"@ != "auto"@) by {
        assert("arm"@.len() != "auto"@.len());
    }
    assert("thumb"@ != Seq::<char>::empty()) by {
        assert("thumb"@.len() == 5);
    }
    assert("thumb"@ != "auto"@) by {
        assert("thumb"@.len() != "auto"@.len());
    }
    assert("thumb"@ != "arm"@) by {
        assert("thumb"@.len() != "arm"@.len());
    }
}

/// The text token of a data element kind reads back as that kind.
pub proof fn lemma_data_kind_token_round(k: DataKind)
    ensures
        parse_data_kind_spec(data_kind_token(k)) == Some(k),
{
    reveal_strlit("byte");
    reveal_strlit("word");
    assert("word"@ != "byte"@) by {
        assert("word"@[0] != "byte"@[0]);
    }
}

/// The kind token of a persisted symbol reads back as that kind; its
/// characters are plain attribute text, so it tokenizes as one token.
#[verifier::rlimit(60)]
pub proof fn lemma_sym_kind_token_round(k: SymbolKind)
    requires
        should_write(k),
    ensures
        parse_sym_kind_spec(sym_kind_token(k)) == Ok::<SymbolKind, SymParse>(k),
        attr_text(sym_kind_token(k)),
        sym_kind_token(k).len() > 0,
{
    reveal_strlit("function");
    reveal_strlit("function(");
    reveal_strlit("data");
    reveal_strlit("data(");
    reveal_strlit("bss");
    reveal_strlit(")");
    reveal_strlit(",count=");
    reveal_strlit("count=");
    reveal_strlit("count");
    reveal_strlit("auto");
    reveal_strlit("arm");
    reveal_strlit("thumb");
    reveal_strlit("byte");
    reveal_strlit("word");
    let tok = sym_kind_token(k);
    match k {
        SymbolKind::Function(f) => {
            let mode = mode_token(f.mode);
            assert(forall|i: int| 0 <= i < mode.len()
                ==> 97 <= (#[trigger] mode[i]) as u32 && mode[i] as u32 <= 122);
            assert(tok =~= "function("@ + mode + ")"@);
            assert(tok[8] == '(');
            assert forall|j: int| 0 <= j < 8 implies #[trigger] tok[j] != '(' by {
                assert(tok[j] == "function("@[j]);
            }
            assert(tok.last() == ')');
            lemma_paren_at(tok, 8);
            assert(tok.take(8) =~= "function"@);
            assert(tok.subrange(9, tok.len() - 1) =~= mode);
            lemma_mode_token_round(f.mode);
            assert(SymFunction { mode: f.mode } == f);
            assert forall|i: int| 0 <= i < tok.len() implies is_attr_char(#[trigger] tok[i]) by {
                if i < 9 {
                    assert(tok[i] == "function("@[i]);
                } else if i < tok.len() - 1 {
                    assert(tok[i] == mode[i - 9]);
                } else {
                    assert(tok[i] == ')');
                }
            }
        },
        SymbolKind::Data(d) => {
            let dk = data_kind_token(d.kind);
            assert(forall|i: int| 0 <= i < dk.len()
                ==> 97 <= (#[trigger] dk[i]) as u32 && dk[i] as u32 <= 122);
            assert("data"@ != "function"@) by {
                assert("data"@.len() != "function"@.len());
            }
            lemma_data_kind_token_round(d.kind);
            if d.count == 1 {
                assert(tok =~= "data("@ + dk + ")"@);
                assert(tok[4] == '(');
                assert forall|j: int| 0 <= j < 4 implies #[trigger] tok[j] != '(' by {
                    assert(tok[j] == "data("@[j]);
                }
                assert(tok.last() == ')');
                lemma_paren_at(tok, 4);
                assert(tok.take(4) =~= "data"@);
                assert(tok.subrange(5, tok.len() - 1) =~= dk);
                lemma_comma_one(dk);
                lemma_split_eq_none(dk);
                let ps = comma_pieces(dk);
                assert(ps[0] == dk);
                assert(ps.drop_first() =~= Seq::<Seq<char>>::empty());
                assert(data_fold(Seq::<Seq<char>>::empty(), SymData { kind: d.kind, count: 1 })
                    == Ok::<SymData, SymParse>(SymData { kind: d.kind, count: 1 }));
                assert(data_fold(ps, SymData { kind: DataKind::Word, count: 1 })
                    == Ok::<SymData, SymParse>(SymData { kind: d.kind, count: 1 }));
                assert(SymData { kind: d.kind, count: 1 } == d);
                assert forall|i: int| 0 <= i < tok.len() implies is_attr_char(#[trigger] tok[i]) by {
                    if i < 5 {
                        assert(tok[i] == "data("@[i]);
                    } else if i < tok.len() - 1 {
                        assert(tok[i] == dk[i - 5]);
                    } else {
                        assert(tok[i] == ')');
                    }
                }
            } else {
                let dec = uint_dec(d.count as nat);
                lemma_uint_dec_lower(d.count as nat);
                assert(tok =~= "data("@ + dk + ",count="@ + dec + ")"@);
                assert(tok[4] == '(');
                assert forall|j: int| 0 <= j < 4 implies #[trigger] tok[j] != '(' by {
                    assert(tok[j] == "data("@[j]);
                }
                assert(tok.last() == ')');
                lemma_paren_at(tok, 4);
                assert(tok.take(4) =~= "data"@);
                let opts = dk + ",count="@ + dec;
                assert(tok.subrange(5, tok.len() - 1) =~= opts);
                let b = "count="@ + dec;
                assert(opts =~= dk + seq![','] + b);
                assert forall|j: int| 0 <= j < b.len() implies #[trigger] b[j] != ',' by {
                    if j < 6 {
                        assert(b[j] == "count="@[j]);
                    } else {
                        assert(b[j] == dec[j - 6]);
                    }
                }
                lemma_comma_cons(dk, b);
                lemma_comma_one(b);
                let ps = comma_pieces(opts);
                assert(ps =~= seq![dk, b]);
                lemma_split_eq_none(dk);
                assert(b[5] == '=');
                assert forall|j: int| 0 <= j < 5 implies #[trigger] b[j] != '=' by {
                    assert(b[j] == "count="@[j]);
                }
                lemma_split_eq_at(b, 5);
                assert(b.take(5) =~= "count"@);
                assert(b.skip(6) =~= dec);
                lemma_parse_dec_u32(d.count);
                assert(ps[0] == dk);
                assert(ps.drop_first() =~= seq![b]);
                let st1 = SymData { kind: d.kind, count: 1 };
                assert(data_fold(ps, SymData { kind: DataKind::Word, count: 1 })
                    == data_fold(seq![b], st1));
                assert(seq![b].drop_first() =~= Seq::<Seq<char>>::empty());
                assert(data_fold(Seq::<Seq<char>>::empty(), SymData { kind: d.kind, count: d.count })
                    == Ok::<SymData, SymParse>(SymData { kind: d.kind, count: d.count }));
                assert(data_fold(seq![b], st1)
                    == Ok::<SymData, SymParse>(SymData { kind: d.kind, count: d.count }));
                assert(SymData { kind: d.kind, count: d.count } == d);
                assert forall|i: int| 0 <= i < tok.len() implies is_attr_char(#[trigger] tok[i]) by {
                    if i < 5 {
                        assert(tok[i] == "data("@[i]);
                    } else if i < 5 + dk.len() {
                        assert(tok[i] == dk[i - 5]);
                    } else if i < 5 + dk.len() + 7 {
                        assert(tok[i] == ",count="@[i - 5 - dk.len()]);
                    } else if i < tok.len() - 1 {
                        assert(tok[i] == dec[i - 12 - dk.len()]);
                    } else {
                        assert(tok[i] == ')');
                    }
                }
            }
        },
        SymbolKind::Bss => {
            assert(tok == "bss"@);
            assert(forall|j: int| 0 <= j < tok.len() ==> #[trigger] tok[j] != '(');
            lemma_paren_none(tok);
            assert("bss"@ != "function"@) by {
                assert("bss"@.len() != "function"@.len());
            }
            assert("bss"@ != "data"@) by {
                assert("bss"@.len() != "data"@.len());
            }
        },
        _ => {},
    }
}

/// Serializing a persisted symbol yields a line that reads back to the
/// same record, provided the name is a single token (nonempty, without
/// whitespace) that does not open a comment.
#[verifier::rlimit(60)]
pub proof fn lemma_symbol_line_round_trip(v: SymView)
    requires
        should_write(v.kind),
        v.name.len() > 0,
        forall|i: int| 0 <= i < v.name.len() ==> !is_ws_char(#[trigger] v.name[i]),
        forall|i: int| 0 <= i < v.name.len() - 1
            ==> !(#[trigger] v.name[i] == '/' && v.name[i + 1] == '/'),
    ensures
        parse_symbol_spec(sym_line(v))
            == (SymParse::Val { name: v.name, kind: v.kind, addr: v.addr }),
{
    reveal_strlit(" kind:");
    reveal_strlit("kind:");
    reveal_strlit("kind");
    reveal_strlit(" addr:0x");
    reveal_strlit("addr");
    let line = sym_line(v);
    let ktok = sym_kind_token(v.kind);
    lemma_sym_kind_token_round(v.kind);
    let hex = uint_hex(v.addr as nat);
    lemma_uint_hex_lower(v.addr as nat);
    lemma_parse_hex_min(v.addr);
    let t1 = "kind:"@ + ktok;
    let t2 = " addr:0x"@.drop_first() + hex;
    assert(line =~= v.name + seq![' '] + (t1 + seq![' '] + t2));
    assert forall|i: int| 0 <= i < t1.len()
        implies !is_ws_char(#[trigger] t1[i]) && t1[i] != '/' by {
        if i < 5 {
            assert(t1[i] == "kind:"@[i]);
        } else {
            assert(t1[i] == ktok[i - 5]);
            assert(is_attr_char(ktok[i - 5]));
        }
    }
    assert forall|i: int| 0 <= i < t2.len()
        implies !is_ws_char(#[trigger] t2[i]) && t2[i] != '/' by {
        if i < 7 {
            assert(t2[i] == " addr:0x"@[i + 1]);
        } else {
            assert(t2[i] == hex[i - 7]);
        }
    }
    lemma_tokens_cons(v.name, t1 + seq![' '] + t2);
    lemma_tokens_cons(t1, t2);
    lemma_tokens_one(t2);
    assert(tokens(line) =~= seq![v.name, t1, t2]);
    assert forall|i: int| 0 <= i < line.len() - 1
        implies !(#[trigger] line[i] == '/' && line[i + 1] == '/') by {
        if i + 1 >= v.name.len() {
            let j = i + 1;
            if j == v.name.len() {
                assert(line[j] == ' ');
            } else if j < v.name.len() + 1 + t1.len() {
                assert(line[j] == t1[j - v.name.len() - 1]);
            } else if j == v.name.len() + 1 + t1.len() {
                assert(line[j] == ' ');
            } else {
                assert(line[j] == t2[j - v.name.len() - 2 - t1.len()]);
            }
        }
    }
    lemma_strip_comment_id(line);
    let toks = tokens(strip_comment(line));
    assert(toks =~= seq![v.name, t1, t2]);
    let rest = toks.drop_first();
    assert(rest =~= seq![t1, t2]);
    assert(t1[4] == ':');
    assert forall|j: int| 0 <= j < 4 implies #[trigger] t1[j] != ':' by {
        assert(t1[j] == "kind:"@[j]);
    }
    lemma_split_attr_at(t1, 4);
    assert(t1.take(4) =~= "kind"@);
    assert(t1.skip(5) =~= ktok);
    assert(t2[4] == ':');
    assert forall|j: int| 0 <= j < 4 implies #[trigger] t2[j] != ':' by {
        assert(t2[j] == " addr:0x"@[j + 1]);
    }
    lemma_split_attr_at(t2, 4);
    assert(t2.take(4) =~= "addr"@);
    assert(t2.skip(5) =~= seq!['0', 'x'] + hex);
    assert("addr"@ != "kind"@) by {
        assert("addr"@[0] != "kind"@[0]);
    }
    assert(rest[0] == t1);
    assert(rest.drop_first() =~= seq![t2]);
    let st1 = SymSt { kind: Some(v.kind), addr: None };
    assert(sym_fold(rest, SymSt { kind: None, addr: None }) == sym_fold(seq![t2], st1));
    assert(seq![t2].drop_first() =~= Seq::<Seq<char>>::empty());
    assert(sym_fold(Seq::<Seq<char>>::empty(), SymSt { kind: Some(v.kind), addr: Some(v.addr) })
        == Ok::<SymSt, SymParse>(SymSt { kind: Some(v.kind), addr: Some(v.addr) }));
    assert(sym_fold(seq![t2], st1)
        == Ok::<SymSt, SymParse>(SymSt { kind: Some(v.kind), addr: Some(v.addr) }));
    assert(toks[0] == v.name);
}

} // verus!
