//! The relocation table: cross-region reference records keyed by their
//! source address, with collision-aware insertion and a line-oriented
//! text form.

use vstd::prelude::*;
use crate::text::{
    ParseContext, tokens, strip_comment, split_attr, paren_name, paren_options, comma_pieces,
    views, str_to_chars, chars_to_string, chars_eq_str, push_str_chars, push_chars,
    strip_comment_chars, tokenize, split_attr_chars, split_paren_chars, comma_pieces_chars,
    is_ws_char, is_attr_char, attr_text, lemma_strip_comment_id, lemma_tokens_one,
    lemma_tokens_cons, lemma_split_attr_at, lemma_paren_at, lemma_paren_none, lemma_comma_one,
    lemma_comma_cons,
};
use crate::num::{
    parse_u32_spec, parse_u16_spec, parse_i32_spec, parse_u32_chars, parse_u16_chars,
    parse_i32_chars, hex_w, uint_dec, int_dec, hex_w_chars, uint_dec_chars, i32_dec_chars,
    dec_digit, lemma_uint_dec_val, lemma_hex_w_lower, lemma_uint_dec_lower, lemma_parse_hex8,
    lemma_parse_dec_u16, lemma_parse_int_dec,
};

verus! {

// ---------------------------------------------------------------------------
// Relocation kinds
// ---------------------------------------------------------------------------

#[derive(Clone, Copy, PartialEq, Eq, Structural, Debug)]
pub enum RelocationKind {
    ArmCall,
    ThumbCall,
    ArmCallThumb,
    ThumbCallArm,
    ArmBranch,
    Load,
}

/// The pc-relative bias a kind adds to the stored addend: ARM references
/// read pc two instructions ahead (-8), Thumb ones one instruction pair
/// ahead (-4), and loaded pointers carry no bias.
pub open spec fn kind_bias(k: RelocationKind) -> int {
    match k {
        RelocationKind::ArmCall => -8,
        RelocationKind::ThumbCall => -4,
        RelocationKind::ArmCallThumb => -8,
        RelocationKind::ThumbCallArm => -4,
        RelocationKind::ArmBranch => -8,
        RelocationKind::Load => 0,
    }
}

pub open spec fn kind_token(k: RelocationKind) -> Seq<char> {
    match k {
        RelocationKind::ArmCall => "arm_call"@,
        RelocationKind::ThumbCall => "thumb_call"@,
        RelocationKind::ArmCallThumb => "arm_call_thumb"@,
        RelocationKind::ThumbCallArm => "thumb_call_arm"@,
        RelocationKind::ArmBranch => "arm_branch"@,
        RelocationKind::Load => "load"@,
    }
}

pub open spec fn parse_kind_spec(v: Seq<char>) -> Option<RelocationKind> {
    if v == "arm_call"@ {
        Some(RelocationKind::ArmCall)
    } else if v == "thumb_call"@ {
        Some(RelocationKind::ThumbCall)
    } else if v == "arm_call_thumb"@ {
        Some(RelocationKind::ArmCallThumb)
    } else if v == "thumb_call_arm"@ {
        Some(RelocationKind::ThumbCallArm)
    } else if v == "arm_branch"@ {
        Some(RelocationKind::ArmBranch)
    } else if v == "load"@ {
        Some(RelocationKind::Load)
    } else {
        None
    }
}

#[derive(Debug, Clone, PartialEq, Eq)]
pub enum RelocationKindParseError {
    UnknownKind { context: ParseContext, value: String },
}

impl RelocationKind {
    pub fn parse(value: &Vec<char>, context: &ParseContext) -> (r: Result<RelocationKind, RelocationKindParseError>)
        ensures
            match r {
                Ok(k) => parse_kind_spec(value@) == Some(k),
                Err(e) => parse_kind_spec(value@) is None
                    && (e matches RelocationKindParseError::UnknownKind { context: c, value: v }
                        && v@ == value@ && c.file_path@ == context.file_path@ && c.row == context.row),
            },
    {
        if chars_eq_str(value, "arm_call") {
            Ok(RelocationKind::ArmCall)
        } else if chars_eq_str(value, "thumb_call") {
            Ok(RelocationKind::ThumbCall)
        } else if chars_eq_str(value, "arm_call_thumb") {
            Ok(RelocationKind::ArmCallThumb)
        } else if chars_eq_str(value, "thumb_call_arm") {
            Ok(RelocationKind::ThumbCallArm)
        } else if chars_eq_str(value, "arm_branch") {
            Ok(RelocationKind::ArmBranch)
        } else if chars_eq_str(value, "load") {
            Ok(RelocationKind::Load)
        } else {
            Err(RelocationKindParseError::UnknownKind {
                context: context.duplicate(),
                value: chars_to_string(value),
            })
        }
    }

    /// The kind-intrinsic pc-relative bias (see `kind_bias`).
    pub fn addend(&self) -> (r: i64)
        ensures
            r as int == kind_bias(*self),
    {
        match self {
            RelocationKind::ArmCall => -8,
            RelocationKind::ThumbCall => -4,
            RelocationKind::ArmCallThumb => -8,
            RelocationKind::ThumbCallArm => -4,
            RelocationKind::ArmBranch => -8,
            RelocationKind::Load => 0,
        }
    }

    pub fn token_chars(&self) -> (r: Vec<char>)
        ensures
            r@ == kind_token(*self),
    {
        let mut r: Vec<char> = Vec::new();
        match self {
            RelocationKind::ArmCall => push_str_chars(&mut r, "arm_call"),
            RelocationKind::ThumbCall => push_str_chars(&mut r, "thumb_call"),
            RelocationKind::ArmCallThumb => push_str_chars(&mut r, "arm_call_thumb"),
            RelocationKind::ThumbCallArm => push_str_chars(&mut r, "thumb_call_arm"),
            RelocationKind::ArmBranch => push_str_chars(&mut r, "arm_branch"),
            RelocationKind::Load => push_str_chars(&mut r, "load"),
        }
        assert(r@ =~= kind_token(*self));
        r
    }
}

// ---------------------------------------------------------------------------
// Relocation destinations (modules)
// ---------------------------------------------------------------------------

/// Where the target address of a relocation lives.
#[derive(Clone, Debug, PartialEq, Eq)]
pub enum RelocationModule {
    NoDestination,
    Overlay { id: u16 },
    Overlays { ids: Vec<u16> },
    Main,
    Itcm,
    Dtcm,
}

/// The mathematical shape of a destination: overlay id lists as sequences.
pub enum ModuleView {
    NoDestination,
    Overlay { id: u16 },
    Overlays { ids: Seq<u16> },
    Main,
    Itcm,
    Dtcm,
}

impl View for RelocationModule {
    type V = ModuleView;

    open spec fn view(&self) -> ModuleView {
        match self {
            RelocationModule::NoDestination => ModuleView::NoDestination,
            RelocationModule::Overlay { id } => ModuleView::Overlay { id: *id },
            RelocationModule::Overlays { ids } => ModuleView::Overlays { ids: ids@ },
            RelocationModule::Main => ModuleView::Main,
            RelocationModule::Itcm => ModuleView::Itcm,
            RelocationModule::Dtcm => ModuleView::Dtcm,
        }
    }
}

/// A destination that the text form can express: an overlay set always
/// names at least two overlays.
pub open spec fn module_wf(m: ModuleView) -> bool {
    m matches ModuleView::Overlays { ids } ==> ids.len() >= 2
}

/// What went wrong while reading a destination token.
pub enum ModuleErrView {
    UnexpectedOptions { module: Seq<char>, options: Seq<char> },
    ParseOverlayId { value: Seq<char> },
    ExpectedMultipleOverlays { ids: Seq<u16> },
    UnknownModule { module: Seq<char> },
}

#[derive(Debug, Clone, PartialEq, Eq)]
pub enum RelocationModuleParseError {
    UnexpectedOptions { context: ParseContext, module: String, options: String },
    ParseOverlayId { context: ParseContext, value: String },
    ExpectedMultipleOverlays { context: ParseContext, ids: Vec<u16> },
    UnknownModule { context: ParseContext, module: String },
}

pub open spec fn module_err_view(e: RelocationModuleParseError) -> ModuleErrView {
    match e {
        RelocationModuleParseError::UnexpectedOptions { module, options, .. } =>
            ModuleErrView::UnexpectedOptions { module: module@, options: options@ },
        RelocationModuleParseError::ParseOverlayId { value, .. } =>
            ModuleErrView::ParseOverlayId { value: value@ },
        RelocationModuleParseError::ExpectedMultipleOverlays { ids, .. } =>
            ModuleErrView::ExpectedMultipleOverlays { ids: ids@ },
        RelocationModuleParseError::UnknownModule { module, .. } =>
            ModuleErrView::UnknownModule { module: module@ },
    }
}

pub open spec fn module_err_context(e: RelocationModuleParseError) -> ParseContext {
    match e {
        RelocationModuleParseError::UnexpectedOptions { context, .. } => context,
        RelocationModuleParseError::ParseOverlayId { context, .. } => context,
        RelocationModuleParseError::ExpectedMultipleOverlays { context, .. } => context,
        RelocationModuleParseError::UnknownModule { context, .. } => context,
    }
}

pub open spec fn opt_module_view(m: Option<RelocationModule>) -> Option<ModuleView> {
    match m {
        Some(x) => Some(x@),
        None => None,
    }
}

/// Reads a comma-separated overlay id list; the first malformed piece is
/// reported.
pub open spec fn parse_ids_spec(ps: Seq<Seq<char>>) -> Result<Seq<u16>, Seq<char>>
    decreases ps.len(),
{
    if ps.len() == 0 {
        Ok(Seq::empty())
    } else {
        match parse_u16_spec(ps[0]) {
            None => Err(ps[0]),
            Some(id) => match parse_ids_spec(ps.drop_first()) {
                Ok(rest) => Ok(seq![id] + rest),
                Err(p) => Err(p),
            },
        }
    }
}

/// The meaning of a destination token, mirroring the grammar: `none`,
/// `main`, `itcm` and `dtcm` take no options, `overlay(<id>)` takes one id,
/// `overlays(<id>,<id>,...)` takes two or more.
pub open spec fn parse_module_spec(v: Seq<char>) -> Result<ModuleView, ModuleErrView> {
    let name = paren_name(v);
    let opts = paren_options(v);
    if name == "none"@ {
        if opts.len() == 0 {
            Ok(ModuleView::NoDestination)
        } else {
            Err(ModuleErrView::UnexpectedOptions { module: name, options: opts })
        }
    } else if name == "overlay"@ {
        match parse_u16_spec(opts) {
            Some(id) => Ok(ModuleView::Overlay { id }),
            None => Err(ModuleErrView::ParseOverlayId { value: opts }),
        }
    } else if name == "overlays"@ {
        match parse_ids_spec(comma_pieces(opts)) {
            Err(p) => Err(ModuleErrView::ParseOverlayId { value: p }),
            Ok(ids) => if ids.len() < 2 {
                Err(ModuleErrView::ExpectedMultipleOverlays { ids })
            } else {
                Ok(ModuleView::Overlays { ids })
            },
        }
    } else if name == "main"@ {
        if opts.len() == 0 {
            Ok(ModuleView::Main)
        } else {
            Err(ModuleErrView::UnexpectedOptions { module: name, options: opts })
        }
    } else if name == "itcm"@ {
        if opts.len() == 0 {
            Ok(ModuleView::Itcm)
        } else {
            Err(ModuleErrView::UnexpectedOptions { module: name, options: opts })
        }
    } else if name == "dtcm"@ {
        if opts.len() == 0 {
            Ok(ModuleView::Dtcm)
        } else {
            Err(ModuleErrView::UnexpectedOptions { module: name, options: opts })
        }
    } else {
        Err(ModuleErrView::UnknownModule { module: name })
    }
}

impl RelocationModule {
    #[verifier::loop_isolation(false)]
    pub fn parse(text: &Vec<char>, context: &ParseContext) -> (r: Result<RelocationModule, RelocationModuleParseError>)
        ensures
            match r {
                Ok(m) => parse_module_spec(text@) == Ok::<ModuleView, ModuleErrView>(m@) && module_wf(m@),
                Err(e) => parse_module_spec(text@) == Err::<ModuleView, ModuleErrView>(module_err_view(e))
                    && module_err_context(e).file_path@ == context.file_path@
                    && module_err_context(e).row == context.row,
            },
    {
        let (name, opts) = split_paren_chars(text);
        if chars_eq_str(&name, "none") {
            if opts.len() == 0 {
                Ok(RelocationModule::NoDestination)
            } else {
                Err(RelocationModuleParseError::UnexpectedOptions {
                    context: context.duplicate(),
                    module: chars_to_string(&name),
                    options: chars_to_string(&opts),
                })
            }
        } else if chars_eq_str(&name, "overlay") {
            match parse_u16_chars(&opts) {
                Some(id) => Ok(RelocationModule::Overlay { id }),
                None => Err(RelocationModuleParseError::ParseOverlayId {
                    context: context.duplicate(),
                    value: chars_to_string(&opts),
                }),
            }
        } else if chars_eq_str(&name, "overlays") {
            let pieces = comma_pieces_chars(&opts);
            let ghost pviews = views(pieces@);
            let mut ids: Vec<u16> = Vec::new();
            let mut i: usize = 0;
            proof {
                assert(pviews.skip(0) =~= pviews);
                assert(parse_ids_spec(pviews) == (match parse_ids_spec(pviews.skip(0)) {
                    Ok(rest) => Ok::<Seq<u16>, Seq<char>>(ids@ + rest),
                    Err(p) => Err::<Seq<u16>, Seq<char>>(p),
                })) by {
                    if parse_ids_spec(pviews) is Ok {
                        assert(ids@ + parse_ids_spec(pviews)->Ok_0 =~= parse_ids_spec(pviews)->Ok_0);
                    }
                };
            }
            while i < pieces.len()
                invariant
                    i <= pieces@.len(),
                    pviews == views(pieces@),
                    ids@.len() == i,
                    parse_ids_spec(pviews) == (match parse_ids_spec(pviews.skip(i as int)) {
                        Ok(rest) => Ok::<Seq<u16>, Seq<char>>(ids@ + rest),
                        Err(p) => Err::<Seq<u16>, Seq<char>>(p),
                    }),
                decreases pieces@.len() - i,
            {
                let ghost tail = pviews.skip(i as int);
                proof {
                    assert(tail[0] == pviews[i as int]);
                    assert(tail.drop_first() =~= pviews.skip(i as int + 1));
                }
                proof {
                    assert(pviews[i as int] == pieces@[i as int]@);
                }
                match parse_u16_chars(&pieces[i]) {
                    Some(id) => {
                        let ghost old_ids = ids@;
                        ids.push(id);
                        proof {
                            if parse_ids_spec(pviews.skip(i as int + 1)) is Ok {
                                let rest = parse_ids_spec(pviews.skip(i as int + 1))->Ok_0;
                                assert(old_ids + (seq![id] + rest) =~= ids@ + rest);
                            }
                        }
                        i += 1;
                    },
                    None => {
                        proof {
                            assert(pviews[i as int] == pieces@[i as int]@);
                            assert(parse_ids_spec(tail) == Err::<Seq<u16>, Seq<char>>(tail[0]));
                        }
                        return Err(RelocationModuleParseError::ParseOverlayId {
                            context: context.duplicate(),
                            value: chars_to_string(&pieces[i]),
                        });
                    },
                }
            }
            proof {
                assert(pviews.skip(i as int) =~= Seq::<Seq<char>>::empty());
                assert(parse_ids_spec(Seq::<Seq<char>>::empty()) == Ok::<Seq<u16>, Seq<char>>(Seq::empty()));
                assert(ids@ + Seq::<u16>::empty() =~= ids@);
            }
            if ids.len() < 2 {
                Err(RelocationModuleParseError::ExpectedMultipleOverlays {
                    context: context.duplicate(),
                    ids,
                })
            } else {
                Ok(RelocationModule::Overlays { ids })
            }
        } else if chars_eq_str(&name, "main") {
            if opts.len() == 0 {
                Ok(RelocationModule::Main)
            } else {
                Err(RelocationModuleParseError::UnexpectedOptions {
                    context: context.duplicate(),
                    module: chars_to_string(&name),
                    options: chars_to_string(&opts),
                })
            }
        } else if chars_eq_str(&name, "itcm") {
            if opts.len() == 0 {
                Ok(RelocationModule::Itcm)
            } else {
                Err(RelocationModuleParseError::UnexpectedOptions {
                    context: context.duplicate(),
                    module: chars_to_string(&name),
                    options: chars_to_string(&opts),
                })
            }
        } else if chars_eq_str(&name, "dtcm") {
            if opts.len() == 0 {
                Ok(RelocationModule::Dtcm)
            } else {
                Err(RelocationModuleParseError::UnexpectedOptions {
                    context: context.duplicate(),
                    module: chars_to_string(&name),
                    options: chars_to_string(&opts),
                })
            }
        } else {
            Err(RelocationModuleParseError::UnknownModule {
                context: context.duplicate(),
                module: chars_to_string(&name),
            })
        }
    }

    /// Structural equality of two destinations.
    #[verifier::loop_isolation(false)]
    pub fn same_as(&self, other: &RelocationModule) -> (r: bool)
        ensures
            r == (self@ == other@),
    {
        match (self, other) {
            (RelocationModule::NoDestination, RelocationModule::NoDestination) => true,
            (RelocationModule::Main, RelocationModule::Main) => true,
            (RelocationModule::Itcm, RelocationModule::Itcm) => true,
            (RelocationModule::Dtcm, RelocationModule::Dtcm) => true,
            (RelocationModule::Overlay { id: a }, RelocationModule::Overlay { id: b }) => a == b,
            (RelocationModule::Overlays { ids: a }, RelocationModule::Overlays { ids: b }) => {
                if a.len() != b.len() {
                    proof {
                        if self@ == other@ {
                            assert(a@ == b@);
                        }
                    }
                    return false;
                }
                let mut i: usize = 0;
                while i < a.len()
                    invariant
                        i <= a@.len() == b@.len(),
                        forall|j: int| 0 <= j < i ==> a@[j] == b@[j],
                    decreases a@.len() - i,
                {
                    if a[i] != b[i] {
                        proof {
                            if self@ == other@ {
                                assert(a@ == b@);
                                assert(a@[i as int] == b@[i as int]);
                            }
                        }
                        return false;
                    }
                    i += 1;
                }
                proof {
                    assert(a@ =~= b@);
                }
                true
            },
            _ => false,
        }
    }

    pub fn token_chars(&self) -> (r: Vec<char>)
        requires
            self@ matches ModuleView::Overlays { ids } ==> ids.len() >= 1,
        ensures
            r@ == module_token(self@),
    {
        let mut r: Vec<char> = Vec::new();
        match self {
            RelocationModule::NoDestination => push_str_chars(&mut r, "none"),
            RelocationModule::Main => push_str_chars(&mut r, "main"),
            RelocationModule::Itcm => push_str_chars(&mut r, "itcm"),
            RelocationModule::Dtcm => push_str_chars(&mut r, "dtcm"),
            RelocationModule::Overlay { id } => {
                push_str_chars(&mut r, "overlay(");
                let mut d = uint_dec_chars(*id as u32);
                push_chars(&mut r, &d);
                push_str_chars(&mut r, ")");
            },
            RelocationModule::Overlays { ids } => {
                push_str_chars(&mut r, "overlays(");
                let d = ids_join_chars(ids, 0);
                proof {
                    assert(ids@.skip(0) =~= ids@);
                }
                push_chars(&mut r, &d);
                push_str_chars(&mut r, ")");
            },
        }
        assert(r@ =~= module_token(self@));
        r
    }
}

/// The overlay ids of a set, joined with commas.
pub open spec fn ids_join(ids: Seq<u16>) -> Seq<char>
    decreases ids.len(),
{
    if ids.len() == 0 {
        Seq::empty()
    } else if ids.len() == 1 {
        uint_dec(ids[0] as nat)
    } else {
        uint_dec(ids[0] as nat) + seq![','] + ids_join(ids.drop_first())
    }
}

fn ids_join_chars(ids: &Vec<u16>, start: usize) -> (r: Vec<char>)
    requires
        start <= ids@.len(),
    ensures
        r@ == ids_join(ids@.skip(start as int)),
    decreases ids@.len() - start,
{
    let ghost tail = ids@.skip(start as int);
    if start == ids.len() {
        let r: Vec<char> = Vec::new();
        assert(r@ =~= ids_join(tail));
        r
    } else if start + 1 == ids.len() {
        let r = uint_dec_chars(ids[start] as u32);
        assert(tail[0] == ids@[start as int]);
        r
    } else {
        let mut r = uint_dec_chars(ids[start] as u32);
        r.push(',');
        let rest = ids_join_chars(ids, start + 1);
        push_chars(&mut r, &rest);
        proof {
            assert(tail[0] == ids@[start as int]);
            assert(tail.drop_first() =~= ids@.skip(start as int + 1));
            assert(r@ =~= ids_join(tail));
        }
        r
    }
}

/// The text token of a destination.
pub open spec fn module_token(m: ModuleView) -> Seq<char> {
    match m {
        ModuleView::NoDestination => "none"@,
        ModuleView::Main => "main"@,
        ModuleView::Itcm => "itcm"@,
        ModuleView::Dtcm => "dtcm"@,
        ModuleView::Overlay { id } => "overlay("@ + uint_dec(id as nat) + ")"@,
        ModuleView::Overlays { ids } => "overlays("@ + ids_join(ids) + ")"@,
    }
}

// ---------------------------------------------------------------------------
// Relocations
// ---------------------------------------------------------------------------

/// A record stating that the word at `from` refers to the address `to` in
/// the destination `module`, with a user addend and an optional free-text
/// annotation that has no semantic effect.
#[derive(Clone, Debug, PartialEq, Eq)]
pub struct Relocation {
    pub from: u32,
    pub to: u32,
    pub addend: i32,
    pub kind: RelocationKind,
    pub module: RelocationModule,
    pub source: Option<String>,
}

/// The mathematical shape of a relocation record.
pub struct RelocView {
    pub from: u32,
    pub to: u32,
    pub addend: i32,
    pub kind: RelocationKind,
    pub module: ModuleView,
    pub source: Option<Seq<char>>,
}

impl View for Relocation {
    type V = RelocView;

    open spec fn view(&self) -> RelocView {
        RelocView {
            from: self.from,
            to: self.to,
            addend: self.addend,
            kind: self.kind,
            module: self.module@,
            source: match self.source {
                Some(s) => Some(s@),
                None => None,
            },
        }
    }
}

/// The outcome of reading one relocation line.
pub enum RelocParse {
    Blank,
    Val { from: u32, to: u32, addend: i32, kind: RelocationKind, module: ModuleView },
    BadFrom { value: Seq<char> },
    BadTo { value: Seq<char> },
    BadAdd { value: Seq<char> },
    BadKind { value: Seq<char> },
    BadModule { err: ModuleErrView },
    UnknownKey { key: Seq<char> },
    MissingKey { attribute: Seq<char> },
}

/// Attribute accumulator for one relocation line.
pub struct RelocSt {
    pub from: Option<u32>,
    pub to: Option<u32>,
    pub addend: i32,
    pub kind: Option<RelocationKind>,
    pub module: Option<ModuleView>,
}

/// Reads the attribute tokens of a relocation line, last occurrence of a
/// key winning, stopping at the first malformed token.
pub open spec fn reloc_fold(toks: Seq<Seq<char>>, st: RelocSt) -> Result<RelocSt, RelocParse>
    decreases toks.len(),
{
    if toks.len() == 0 {
        Ok(st)
    } else {
        match split_attr(toks[0]) {
            None => Err(RelocParse::UnknownKey { key: toks[0] }),
            Some((key, value)) => {
                if key == "from"@ {
                    match parse_u32_spec(value) {
                        Some(x) => reloc_fold(toks.drop_first(), RelocSt { from: Some(x), ..st }),
                        None => Err(RelocParse::BadFrom { value }),
                    }
                } else if key == "to"@ {
                    match parse_u32_spec(value) {
                        Some(x) => reloc_fold(toks.drop_first(), RelocSt { to: Some(x), ..st }),
                        None => Err(RelocParse::BadTo { value }),
                    }
                } else if key == "add"@ {
                    match parse_i32_spec(value) {
                        Some(x) => reloc_fold(toks.drop_first(), RelocSt { addend: x, ..st }),
                        None => Err(RelocParse::BadAdd { value }),
                    }
                } else if key == "kind"@ {
                    match parse_kind_spec(value) {
                        Some(k) => reloc_fold(toks.drop_first(), RelocSt { kind: Some(k), ..st }),
                        None => Err(RelocParse::BadKind { value }),
                    }
                } else if key == "module"@ {
                    match parse_module_spec(value) {
                        Ok(m) => reloc_fold(toks.drop_first(), RelocSt { module: Some(m), ..st }),
                        Err(e) => Err(RelocParse::BadModule { err: e }),
                    }
                } else {
                    Err(RelocParse::UnknownKey { key })
                }
            },
        }
    }
}

pub open spec fn reloc_init_st() -> RelocSt {
    RelocSt { from: None, to: None, addend: 0, kind: None, module: None }
}

/// The meaning of one relocation line: its trailing comment is stripped,
/// a line without tokens is blank, and `from`, `to`, `kind` and `module`
/// are required.
pub open spec fn parse_reloc_spec(line: Seq<char>) -> RelocParse {
    let toks = tokens(strip_comment(line));
    if toks.len() == 0 {
        RelocParse::Blank
    } else {
        match reloc_fold(toks, reloc_init_st()) {
            Err(e) => e,
            Ok(st) => {
                if st.from is None {
                    RelocParse::MissingKey { attribute: "from"@ }
                } else if st.to is None {
                    RelocParse::MissingKey { attribute: "to"@ }
                } else if st.kind is None {
                    RelocParse::MissingKey { attribute: "kind"@ }
                } else if st.module is None {
                    RelocParse::MissingKey { attribute: "module"@ }
                } else {
                    RelocParse::Val {
                        from: st.from.unwrap(),
                        to: st.to.unwrap(),
                        addend: st.addend,
                        kind: st.kind.unwrap(),
                        module: st.module.unwrap(),
                    }
                }
            },
        }
    }
}

#[derive(Debug, Clone, PartialEq, Eq)]
pub enum RelocationParseError {
    ParseFrom { context: ParseContext, value: String },
    ParseTo { context: ParseContext, value: String },
    ParseAdd { context: ParseContext, value: String },
    Kind(RelocationKindParseError),
    Module(RelocationModuleParseError),
    UnknownAttribute { context: ParseContext, key: String },
    MissingAttribute { context: ParseContext, attribute: String },
}

pub open spec fn reloc_err_view(e: RelocationParseError) -> RelocParse {
    match e {
        RelocationParseError::ParseFrom { value, .. } => RelocParse::BadFrom { value: value@ },
        RelocationParseError::ParseTo { value, .. } => RelocParse::BadTo { value: value@ },
        RelocationParseError::ParseAdd { value, .. } => RelocParse::BadAdd { value: value@ },
        RelocationParseError::Kind(RelocationKindParseError::UnknownKind { value, .. }) =>
            RelocParse::BadKind { value: value@ },
        RelocationParseError::Module(m) => RelocParse::BadModule { err: module_err_view(m) },
        RelocationParseError::UnknownAttribute { key, .. } => RelocParse::UnknownKey { key: key@ },
        RelocationParseError::MissingAttribute { attribute, .. } =>
            RelocParse::MissingKey { attribute: attribute@ },
    }
}

impl Relocation {
    /// Reads one relocation line; blank and comment-only lines carry no
    /// record, and a parsed record never carries a source annotation.
    #[verifier::loop_isolation(false)]
    pub fn parse(line: &str, context: &ParseContext) -> (r: Result<Option<Relocation>, RelocationParseError>)
        ensures
            match r {
                Ok(None) => parse_reloc_spec(line@) is Blank,
                Ok(Some(rel)) => parse_reloc_spec(line@) == (RelocParse::Val {
                    from: rel.from, to: rel.to, addend: rel.addend, kind: rel.kind, module: rel.module@,
                }) && rel.source is None && module_wf(rel.module@),
                Err(e) => parse_reloc_spec(line@) == reloc_err_view(e)
                    && reloc_err_context(e).file_path@ == context.file_path@
                    && reloc_err_context(e).row == context.row,
            },
    {
        let chars = str_to_chars(line);
        let stripped = strip_comment_chars(&chars);
        let toks = tokenize(&stripped);
        let ghost tv = tokens(strip_comment(line@));
        proof {
            assert(views(toks@) == tv);
        }
        if toks.len() == 0 {
            return Ok(None);
        }
        let mut from: Option<u32> = None;
        let mut to: Option<u32> = None;
        let mut addend: i32 = 0;
        let mut kind: Option<RelocationKind> = None;
        let mut module: Option<RelocationModule> = None;
        let mut i: usize = 0;
        proof {
            assert(tv.skip(0) =~= tv);
        }
        while i < toks.len()
            invariant
                i <= toks@.len(),
                tv == views(toks@),
                tv.len() == toks@.len(),
                module matches Some(m) ==> module_wf(m@),
                reloc_fold(tv, reloc_init_st()) == reloc_fold(tv.skip(i as int), RelocSt {
                    from: from,
                    to: to,
                    addend: addend,
                    kind: kind,
                    module: opt_module_view(module),
                }),
            decreases toks@.len() - i,
        {
            let ghost tail = tv.skip(i as int);
            let ghost st = RelocSt {
                from: from, to: to, addend: addend, kind: kind,
                module: opt_module_view(module),
            };
            proof {
                assert(tail[0] == tv[i as int]);
                assert(tv[i as int] == toks@[i as int]@);
                assert(tail.drop_first() =~= tv.skip(i as int + 1));
            }
            let tok = &toks[i];
            match split_attr_chars(tok) {
                None => {
                    return Err(RelocationParseError::UnknownAttribute {
                        context: context.duplicate(),
                        key: chars_to_string(tok),
                    });
                },
                Some((key, value)) => {
                    if chars_eq_str(&key, "from") {
                        match parse_u32_chars(&value) {
                            Some(x) => { from = Some(x); },
                            None => {
                                return Err(RelocationParseError::ParseFrom {
                                    context: context.duplicate(),
                                    value: chars_to_string(&value),
                                });
                            },
                        }
                    } else if chars_eq_str(&key, "to") {
                        match parse_u32_chars(&value) {
                            Some(x) => { to = Some(x); },
                            None => {
                                return Err(RelocationParseError::ParseTo {
                                    context: context.duplicate(),
                                    value: chars_to_string(&value),
                                });
                            },
                        }
                    } else if chars_eq_str(&key, "add") {
                        match parse_i32_chars(&value) {
                            Some(x) => { addend = x; },
                            None => {
                                return Err(RelocationParseError::ParseAdd {
                                    context: context.duplicate(),
                                    value: chars_to_string(&value),
                                });
                            },
                        }
                    } else if chars_eq_str(&key, "kind") {
                        match RelocationKind::parse(&value, context) {
                            Ok(k) => { kind = Some(k); },
                            Err(e) => {
                                return Err(RelocationParseError::Kind(e));
                            },
                        }
                    } else if chars_eq_str(&key, "module") {
                        match RelocationModule::parse(&value, context) {
                            Ok(m) => { module = Some(m); },
                            Err(e) => {
                                return Err(RelocationParseError::Module(e));
                            },
                        }
                    } else {
                        return Err(RelocationParseError::UnknownAttribute {
                            context: context.duplicate(),
                            key: chars_to_string(&key),
                        });
                    }
                },
            }
            i += 1;
        }
        proof {
            assert(tv.skip(i as int) =~= Seq::<Seq<char>>::empty());
        }
        let from = match from {
            Some(x) => x,
            None => {
                return Err(RelocationParseError::MissingAttribute {
                    context: context.duplicate(),
                    attribute: new_string("from"),
                });
            },
        };
        let to = match to {
            Some(x) => x,
            None => {
                return Err(RelocationParseError::MissingAttribute {
                    context: context.duplicate(),
                    attribute: new_string("to"),
                });
            },
        };
        let kind = match kind {
            Some(x) => x,
            None => {
                return Err(RelocationParseError::MissingAttribute {
                    context: context.duplicate(),
                    attribute: new_string("kind"),
                });
            },
        };
        let module = match module {
            Some(x) => x,
            None => {
                return Err(RelocationParseError::MissingAttribute {
                    context: context.duplicate(),
                    attribute: new_string("module"),
                });
            },
        };
        Ok(Some(Relocation { from, to, addend, kind, module, source: None }))
    }

    pub fn new_call(from: u32, to: u32, module: RelocationModule, from_thumb: bool, to_thumb: bool) -> (r: Relocation)
        ensures
            r.from == from,
            r.to == to,
            r.addend == 0,
            r.module == module,
            r.source is None,
            r.kind == (match (from_thumb, to_thumb) {
                (true, true) => RelocationKind::ThumbCall,
                (true, false) => RelocationKind::ThumbCallArm,
                (false, true) => RelocationKind::ArmCallThumb,
                (false, false) => RelocationKind::ArmCall,
            }),
    {
        Relocation {
            from,
            to,
            addend: 0,
            kind: match (from_thumb, to_thumb) {
                (true, true) => RelocationKind::ThumbCall,
                (true, false) => RelocationKind::ThumbCallArm,
                (false, true) => RelocationKind::ArmCallThumb,
                (false, false) => RelocationKind::ArmCall,
            },
            module,
            source: None,
        }
    }

    pub fn new_branch(from: u32, to: u32, module: RelocationModule) -> (r: Relocation)
        ensures
            r.from == from,
            r.to == to,
            r.addend == 0,
            r.kind == RelocationKind::ArmBranch,
            r.module == module,
            r.source is None,
    {
        Relocation { from, to, addend: 0, kind: RelocationKind::ArmBranch, module, source: None }
    }

    pub fn new_load(from: u32, to: u32, addend: i32, module: RelocationModule) -> (r: Relocation)
        ensures
            r.from == from,
            r.to == to,
            r.addend == addend,
            r.kind == RelocationKind::Load,
            r.module == module,
            r.source is None,
    {
        Relocation { from, to, addend, kind: RelocationKind::Load, module, source: None }
    }

    pub fn from_address(&self) -> (r: u32)
        ensures
            r == self.from,
    {
        self.from
    }

    pub fn to_address(&self) -> (r: u32)
        ensures
            r == self.to,
    {
        self.to
    }

    pub fn kind(&self) -> (r: RelocationKind)
        ensures
            r == self.kind,
    {
        self.kind
    }

    pub fn module(&self) -> (r: &RelocationModule)
        ensures
            r == &self.module,
    {
        &self.module
    }

    /// The effective addend: the stored user addend plus the kind bias.
    pub fn addend(&self) -> (r: i64)
        ensures
            r as int == self.addend + kind_bias(self.kind),
    {
        self.addend as i64 + self.kind.addend()
    }

    pub fn addend_value(&self) -> (r: i32)
        ensures
            r == self.addend,
    {
        self.addend
    }

    /// Structural equality, the annotation included.
    pub fn same_as(&self, other: &Relocation) -> (r: bool)
        ensures
            r == (self@ == other@),
    {
        let fields = self.from == other.from && self.to == other.to
            && self.addend == other.addend && self.kind == other.kind
            && self.module.same_as(&other.module);
        if !fields {
            return false;
        }
        match (&self.source, &other.source) {
            (Option::None, Option::None) => true,
            (Option::Some(a), Option::Some(b)) => a.eq(b),
            _ => false,
        }
    }

    /// The text form of this record: `from`, `kind`, `to` and `module`,
    /// a nonzero stored addend as `add:`, and the annotation as a trailing
    /// comment.
    pub fn to_line(&self) -> (r: String)
        requires
            module_wf(self.module@),
        ensures
            r@ == reloc_line_full(self@),
    {
        let mut out: Vec<char> = Vec::new();
        push_str_chars(&mut out, "from:0x");
        let h = hex_w_chars(self.from, 8);
        push_chars(&mut out, &h);
        push_str_chars(&mut out, " kind:");
        let k = self.kind.token_chars();
        push_chars(&mut out, &k);
        push_str_chars(&mut out, " to:0x");
        let h2 = hex_w_chars(self.to, 8);
        push_chars(&mut out, &h2);
        push_str_chars(&mut out, " module:");
        let m = self.module.token_chars();
        push_chars(&mut out, &m);
        if self.addend != 0 {
            push_str_chars(&mut out, " add:");
            let d = i32_dec_chars(self.addend);
            push_chars(&mut out, &d);
        }
        match &self.source {
            Option::Some(s) => {
                push_str_chars(&mut out, " // ");
                push_str_chars(&mut out, s.as_str());
            },
            Option::None => {},
        }
        assert(out@ =~= reloc_line_full(self@));
        chars_to_string(&out)
    }
}

/// A fresh `String` with the characters of a literal.
pub fn new_string(s: &str) -> (r: String)
    ensures
        r@ == s@,
{
    s.to_owned()
}

/// The serialized form of a relocation, annotation excluded: the four
/// required attributes, and the stored addend when it is nonzero.
pub open spec fn reloc_line(v: RelocView) -> Seq<char> {
    "from:0x"@ + hex_w(v.from as nat, 8) + " kind:"@ + kind_token(v.kind) + " to:0x"@
        + hex_w(v.to as nat, 8) + " module:"@ + module_token(v.module)
        + (if v.addend == 0 { Seq::<char>::empty() } else { " add:"@ + int_dec(v.addend as int) })
}

/// The serialized line with the optional trailing annotation.
pub open spec fn reloc_line_full(v: RelocView) -> Seq<char> {
    match v.source {
        Some(s) => reloc_line(v) + " // "@ + s,
        None => reloc_line(v),
    }
}

// ---------------------------------------------------------------------------
// The relocation table
// ---------------------------------------------------------------------------

/// Whether some entry is keyed by `from`.
pub open spec fn has_from(s: Seq<Relocation>, from: u32) -> bool {
    exists|i: int| 0 <= i < s.len() && s[i].from == from
}

/// The views of a sequence of relocations.
pub open spec fn rviews(s: Seq<Relocation>) -> Seq<RelocView> {
    s.map_values(|r: Relocation| r@)
}

/// The outcome `add` promises: an insertion keeping address order, an
/// idempotent duplicate, or a collision fault that leaves the table as it
/// was and reports both records.
pub open spec fn add_outcome(
    old_s: Seq<Relocation>,
    new_s: Seq<Relocation>,
    rel: Relocation,
    r: Result<(), RelocationsError>,
) -> bool {
    match r {
        Ok(()) => {
            ||| (!has_from(old_s, rel.from) && exists|i: int|
                0 <= i <= old_s.len() && new_s == old_s.insert(i, rel))
            ||| (exists|i: int|
                0 <= i < old_s.len() && old_s[i].from == rel.from && old_s[i]@ == rel@
                    && new_s == old_s)
        },
        Err(e) => new_s == old_s && exists|i: int|
            0 <= i < old_s.len() && old_s[i].from == rel.from && old_s[i]@ != rel@
                && (e matches RelocationsError::RelocationCollision {
                    from, curr_to, curr_module, prev_to, prev_module,
                } && from == rel.from && curr_to == rel.to && curr_module@ == rel.module@
                    && prev_to == old_s[i].to && prev_module@ == old_s[i].module@),
    }
}

#[derive(Debug, Clone, PartialEq, Eq)]
pub enum RelocationsError {
    RelocationCollision {
        from: u32,
        curr_to: u32,
        curr_module: RelocationModule,
        prev_to: u32,
        prev_module: RelocationModule,
    },
}

/// The relocation table: records keyed and ordered by their `from` address.
#[derive(Debug)]
pub struct Relocations {
    pub entries: Vec<Relocation>,
}

impl Relocations {
    /// Entries are strictly ordered by their `from` address, so each
    /// address holds at most one record.
    pub open spec fn wf(&self) -> bool {
        forall|i: int, j: int| 0 <= i < j < self.entries@.len()
            ==> self.entries@[i].from < self.entries@[j].from
    }

    pub fn new() -> (r: Relocations)
        ensures
            r.entries@.len() == 0,
            r.wf(),
    {
        Relocations { entries: Vec::new() }
    }

    /// Inserts a record. A second record at an occupied address is accepted
    /// only when it is identical to the stored one; otherwise the table is
    /// unchanged and the collision names both records.
    #[verifier::loop_isolation(false)]
    pub fn add(&mut self, relocation: Relocation) -> (r: Result<(), RelocationsError>)
        requires
            old(self).wf(),
        ensures
            final(self).wf(),
            add_outcome(old(self).entries@, final(self).entries@, relocation, r),
    {
        let n = self.entries.len();
        let mut i: usize = 0;
        while i < n && self.entries[i].from < relocation.from
            invariant
                i <= n,
                forall|j: int| 0 <= j < i ==> self.entries@[j].from < relocation.from,
            decreases n - i,
        {
            i += 1;
        }
        if i < n && self.entries[i].from == relocation.from {
            if self.entries[i].same_as(&relocation) {
                proof {
                    assert(old(self).entries@[i as int]@ == relocation@);
                }
                Ok(())
            } else {
                let prev_to = self.entries[i].to;
                let prev_module = self.entries[i].module.duplicate();
                Err(RelocationsError::RelocationCollision {
                    from: relocation.from,
                    curr_to: relocation.to,
                    curr_module: relocation.module,
                    prev_to,
                    prev_module,
                })
            }
        } else {
            proof {
                if i < n {
                    assert(self.entries@[i as int].from > relocation.from);
                }
            }
            self.entries.insert(i, relocation);
            proof {
                let s = old(self).entries@;
                let t = self.entries@;
                assert forall|a: int, b: int| 0 <= a < b < t.len()
                    implies t[a].from < t[b].from by {
                    if b < i {
                        assert(t[a] == s[a] && t[b] == s[b]);
                    } else if a < i && b == i {
                        assert(t[a] == s[a]);
                    } else if a < i && b > i {
                        assert(t[a] == s[a] && t[b] == s[b - 1]);
                        if b - 1 > i - 1 && b - 1 < s.len() && b - 1 >= i {
                            assert(s[b - 1].from >= relocation.from);
                        }
                    } else if a == i {
                        assert(t[b] == s[b - 1]);
                        assert(s[b - 1].from >= s[i as int].from);
                    } else {
                        assert(t[a] == s[a - 1] && t[b] == s[b - 1]);
                    }
                }
                assert(!has_from(s, relocation.from)) by {
                    assert forall|k: int| 0 <= k < s.len()
                        implies s[k].from != relocation.from by {
                        if k < i {
                            assert(s[k].from < relocation.from);
                        } else if i < n {
                            assert(s[k].from >= s[i as int].from);
                        }
                    }
                }
            }
            Ok(())
        }
    }

    pub fn add_call(&mut self, from: u32, to: u32, module: RelocationModule, from_thumb: bool, to_thumb: bool)
        -> (r: Result<(), RelocationsError>)
        requires
            old(self).wf(),
        ensures
            final(self).wf(),
            add_outcome(old(self).entries@, final(self).entries@, Relocation {
                from,
                to,
                addend: 0,
                kind: match (from_thumb, to_thumb) {
                    (true, true) => RelocationKind::ThumbCall,
                    (true, false) => RelocationKind::ThumbCallArm,
                    (false, true) => RelocationKind::ArmCallThumb,
                    (false, false) => RelocationKind::ArmCall,
                },
                module: module,
                source: None,
            }, r),
    {
        self.add(Relocation::new_call(from, to, module, from_thumb, to_thumb))
    }

    pub fn add_load(&mut self, from: u32, to: u32, addend: i32, module: RelocationModule)
        -> (r: Result<(), RelocationsError>)
        requires
            old(self).wf(),
        ensures
            final(self).wf(),
            add_outcome(old(self).entries@, final(self).entries@, Relocation {
                from,
                to,
                addend,
                kind: RelocationKind::Load,
                module: module,
                source: None,
            }, r),
    {
        self.add(Relocation::new_load(from, to, addend, module))
    }

    /// The record at `from`, if any.
    #[verifier::loop_isolation(false)]
    pub fn get(&self, from: u32) -> (r: Option<&Relocation>)
        ensures
            match r {
                Some(e) => exists|i: int| 0 <= i < self.entries@.len()
                    && self.entries@[i].from == from && *e == self.entries@[i],
                None => !has_from(self.entries@, from),
            },
    {
        let n = self.entries.len();
        let mut i: usize = 0;
        while i < n
            invariant
                i <= n,
                forall|j: int| 0 <= j < i ==> self.entries@[j].from != from,
            decreases n - i,
        {
            if self.entries[i].from == from {
                return Some(&self.entries[i]);
            }
            i += 1;
        }
        None
    }

    /// All entries, in ascending address order.
    pub fn iter(&self) -> (r: &Vec<Relocation>)
        ensures
            r == &self.entries,
    {
        &self.entries
    }

    /// The entries whose `from` address falls in the half-open range, in
    /// ascending address order.
    #[verifier::loop_isolation(false)]
    pub fn iter_range(&self, range: core::ops::Range<u32>) -> (r: Vec<Relocation>)
        ensures
            rviews(r@) == range_sel(rviews(self.entries@), range.start, range.end),
    {
        let mut r: Vec<Relocation> = Vec::new();
        let n = self.entries.len();
        let mut i: usize = 0;
        proof {
            assert(rviews(self.entries@).take(0) =~= Seq::<RelocView>::empty());
            assert(rviews(r@) =~= Seq::<RelocView>::empty());
        }
        while i < n
            invariant
                i <= n == self.entries@.len(),
                rviews(r@) == range_sel(rviews(self.entries@).take(i as int), range.start, range.end),
            decreases n - i,
        {
            let ghost vs = rviews(self.entries@);
            proof {
                assert(vs.take(i as int + 1).drop_last() =~= vs.take(i as int));
                assert(vs.take(i as int + 1).last() == vs[i as int]);
                assert(vs[i as int] == self.entries@[i as int]@);
            }
            let e = &self.entries[i];
            if range.start <= e.from && e.from < range.end {
                let ghost old_r = r@;
                let d = e.duplicate();
                r.push(d);
                proof {
                    assert(rviews(r@) =~= rviews(old_r) + seq![d@]);
                }
            }
            i += 1;
        }
        proof {
            assert(rviews(self.entries@).take(n as int) =~= rviews(self.entries@));
        }
        r
    }
}

/// The entries of `s` whose `from` address lies in `[lo, hi)`, kept in order.
pub open spec fn range_sel(s: Seq<RelocView>, lo: u32, hi: u32) -> Seq<RelocView>
    decreases s.len(),
{
    if s.len() == 0 {
        Seq::empty()
    } else {
        range_sel(s.drop_last(), lo, hi)
            + (if lo <= s.last().from && s.last().from < hi { seq![s.last()] } else { Seq::empty() })
    }
}

impl RelocationModule {
    /// A field-wise copy of this destination.
    pub fn duplicate(&self) -> (r: RelocationModule)
        ensures
            r@ == self@,
    {
        match self {
            RelocationModule::NoDestination => RelocationModule::NoDestination,
            RelocationModule::Main => RelocationModule::Main,
            RelocationModule::Itcm => RelocationModule::Itcm,
            RelocationModule::Dtcm => RelocationModule::Dtcm,
            RelocationModule::Overlay { id } => RelocationModule::Overlay { id: *id },
            RelocationModule::Overlays { ids } => {
                let mut v: Vec<u16> = Vec::new();
                let mut i: usize = 0;
                while i < ids.len()
                    invariant
                        i <= ids@.len(),
                        v@ == ids@.take(i as int),
                    decreases ids@.len() - i,
                {
                    v.push(ids[i]);
                    i += 1;
                    assert(v@ =~= ids@.take(i as int));
                }
                assert(v@ =~= ids@);
                RelocationModule::Overlays { ids: v }
            },
        }
    }
}

impl Relocation {
    /// A field-wise copy of this record, equal in view.
    pub fn duplicate(&self) -> (r: Relocation)
        ensures
            r@ == self@,
    {
        Relocation {
            from: self.from,
            to: self.to,
            addend: self.addend,
            kind: self.kind,
            module: self.module.duplicate(),
            source: match &self.source {
                Option::Some(s) => Some(s.clone()),
                Option::None => None,
            },
        }
    }
}

// ---------------------------------------------------------------------------
// Loading and writing whole files
// ---------------------------------------------------------------------------

/// Sorted insert that replaces an existing record at the same address,
/// as loading a file does (the last line for an address wins).
pub open spec fn insert_reloc(s: Seq<RelocView>, v: RelocView) -> Seq<RelocView>
    decreases s.len(),
{
    if s.len() == 0 {
        seq![v]
    } else if s[0].from < v.from {
        seq![s[0]] + insert_reloc(s.drop_first(), v)
    } else if s[0].from == v.from {
        seq![v] + s.drop_first()
    } else {
        seq![v] + s
    }
}

proof fn lemma_insert_reloc_at(s: Seq<RelocView>, v: RelocView, i: int)
    requires
        0 <= i <= s.len(),
        forall|j: int| 0 <= j < i ==> s[j].from < v.from,
        i < s.len() ==> s[i].from >= v.from,
    ensures
        insert_reloc(s, v) == (if i < s.len() && s[i].from == v.from {
            s.take(i) + seq![v] + s.skip(i + 1)
        } else {
            s.take(i) + seq![v] + s.skip(i)
        }),
    decreases i,
{
    if i == 0 {
        if s.len() == 0 {
            assert(insert_reloc(s, v) =~= s.take(0) + seq![v] + s.skip(0));
        } else if s[0].from == v.from {
            assert(seq![v] + s.drop_first() =~= s.take(0) + seq![v] + s.skip(1));
        } else {
            assert(seq![v] + s =~= s.take(0) + seq![v] + s.skip(0));
        }
    } else {
        let t = s.drop_first();
        assert(forall|j: int| 0 <= j < i - 1 ==> #[trigger] t[j] == s[j + 1]);
        assert(i - 1 < t.len() ==> t[i - 1] == s[i]);
        lemma_insert_reloc_at(t, v, i - 1);
        if i < s.len() && s[i].from == v.from {
            assert(seq![s[0]] + (t.take(i - 1) + seq![v] + t.skip(i))
                =~= s.take(i) + seq![v] + s.skip(i + 1));
        } else {
            assert(seq![s[0]] + (t.take(i - 1) + seq![v] + t.skip(i - 1))
                =~= s.take(i) + seq![v] + s.skip(i));
        }
    }
}

/// Loads lines from index `i` on into the accumulated table; the first
/// faulty line aborts the load, reporting its index.
pub open spec fn load_from(ls: Seq<Seq<char>>, i: int, acc: Seq<RelocView>)
    -> Result<Seq<RelocView>, (int, RelocParse)>
    decreases ls.len() - i when 0 <= i <= ls.len()
{
    if i >= ls.len() {
        Ok(acc)
    } else {
        match parse_reloc_spec(ls[i]) {
            RelocParse::Blank => load_from(ls, i + 1, acc),
            RelocParse::Val { from, to, addend, kind, module } => load_from(ls, i + 1,
                insert_reloc(acc, RelocView { from, to, addend, kind, module, source: None })),
            e => Err((i, e)),
        }
    }
}

/// The meaning of a whole relocation file, given as its lines.
pub open spec fn load_relocs(ls: Seq<Seq<char>>) -> Result<Seq<RelocView>, (int, RelocParse)> {
    load_from(ls, 0, Seq::empty())
}

pub open spec fn line_views(ls: Seq<String>) -> Seq<Seq<char>> {
    ls.map_values(|l: String| l@)
}

pub open spec fn reloc_err_context(e: RelocationParseError) -> ParseContext {
    match e {
        RelocationParseError::ParseFrom { context, .. } => context,
        RelocationParseError::ParseTo { context, .. } => context,
        RelocationParseError::ParseAdd { context, .. } => context,
        RelocationParseError::Kind(RelocationKindParseError::UnknownKind { context, .. }) => context,
        RelocationParseError::Module(m) => module_err_context(m),
        RelocationParseError::UnknownAttribute { context, .. } => context,
        RelocationParseError::MissingAttribute { context, .. } => context,
    }
}

impl Relocations {
    /// Sorted insert-or-replace, the semantics of loading a line.
    #[verifier::loop_isolation(false)]
    fn put(&mut self, relocation: Relocation)
        requires
            old(self).wf(),
        ensures
            final(self).wf(),
            rviews(final(self).entries@) == insert_reloc(rviews(old(self).entries@), relocation@),
    {
        let n = self.entries.len();
        let mut i: usize = 0;
        while i < n && self.entries[i].from < relocation.from
            invariant
                i <= n,
                forall|j: int| 0 <= j < i ==> self.entries@[j].from < relocation.from,
            decreases n - i,
        {
            i += 1;
        }
        let ghost s = self.entries@;
        let ghost vs = rviews(s);
        proof {
            assert(forall|j: int| 0 <= j < s.len() ==> #[trigger] vs[j] == s[j]@);
            lemma_insert_reloc_at(vs, relocation@, i as int);
        }
        if i < n && self.entries[i].from == relocation.from {
            self.entries.remove(i);
            self.entries.insert(i, relocation);
            proof {
                assert(self.entries@ =~= s.take(i as int) + seq![relocation] + s.skip(i as int + 1));
                assert(rviews(self.entries@) =~= vs.take(i as int) + seq![relocation@] + vs.skip(i as int + 1));
                assert forall|a: int, b: int| 0 <= a < b < self.entries@.len()
                    implies self.entries@[a].from < self.entries@[b].from by {
                    if a < i {
                        assert(self.entries@[a] == s[a]);
                    } else if a == i {
                        assert(self.entries@[a].from == relocation.from);
                    } else {
                        assert(self.entries@[a] == s[a]);
                    }
                    if b < i {
                        assert(self.entries@[b] == s[b]);
                    } else if b > i {
                        assert(self.entries@[b] == s[b]);
                        assert(s[b].from > s[i as int].from);
                    }
                }
            }
        } else {
            proof {
                if i < n {
                    assert(s[i as int].from > relocation.from);
                }
            }
            self.entries.insert(i, relocation);
            proof {
                assert(self.entries@ =~= s.take(i as int) + seq![relocation] + s.skip(i as int));
                assert(rviews(self.entries@) =~= vs.take(i as int) + seq![relocation@] + vs.skip(i as int));
                assert forall|a: int, b: int| 0 <= a < b < self.entries@.len()
                    implies self.entries@[a].from < self.entries@[b].from by {
                    if b < i {
                        assert(self.entries@[a] == s[a] && self.entries@[b] == s[b]);
                    } else if a < i && b == i {
                        assert(self.entries@[a] == s[a]);
                    } else if a < i && b > i {
                        assert(self.entries@[a] == s[a] && self.entries@[b] == s[b - 1]);
                        if i < n {
                            assert(s[b - 1].from >= s[i as int].from);
                        }
                    } else if a == i {
                        assert(self.entries@[b] == s[b - 1]);
                        assert(s[b - 1].from >= s[i as int].from);
                    } else {
                        assert(self.entries@[a] == s[a - 1] && self.entries@[b] == s[b - 1]);
                    }
                }
            }
        }
    }

    /// Builds a table from the lines of a relocation file. The first faulty
    /// line aborts the load; a later line for an occupied address replaces
    /// the earlier record.
    #[verifier::loop_isolation(false)]
    pub fn from_lines(lines: &Vec<String>, path: &str) -> (r: Result<Relocations, RelocationParseError>)
        ensures
            match r {
                Ok(t) => t.wf() && load_relocs(line_views(lines@)) == Ok::<Seq<RelocView>, (int, RelocParse)>(rviews(t.entries@)),
                Err(e) => exists|i: int| 0 <= i < lines@.len()
                    && load_relocs(line_views(lines@)) == Err::<Seq<RelocView>, (int, RelocParse)>((i, reloc_err_view(e)))
                    && reloc_err_context(e).row == i + 1
                    && reloc_err_context(e).file_path@ == path@,
            },
    {
        let ghost lv = line_views(lines@);
        let mut table = Relocations::new();
        let mut i: usize = 0;
        proof {
            assert(rviews(table.entries@) =~= Seq::<RelocView>::empty());
        }
        while i < lines.len()
            invariant
                i <= lines@.len(),
                table.wf(),
                load_relocs(lv) == load_from(lv, i as int, rviews(table.entries@)),
            decreases lines@.len() - i,
        {
            proof {
                assert(lv[i as int] == lines@[i as int]@);
            }
            let context = ParseContext { file_path: new_string(path), row: i + 1 };
            match Relocation::parse(lines[i].as_str(), &context) {
                Ok(Option::Some(rel)) => {
                    proof {
                        assert(rel@ == (RelocView {
                            from: rel.from, to: rel.to, addend: rel.addend, kind: rel.kind,
                            module: rel.module@, source: None,
                        }));
                    }
                    table.put(rel);
                },
                Ok(Option::None) => {},
                Err(e) => {
                    return Err(e);
                },
            }
            i += 1;
        }
        Ok(table)
    }

    /// The text lines of this table, one per record, in address order.
    #[verifier::loop_isolation(false)]
    pub fn to_lines(&self) -> (r: Vec<String>)
        requires
            forall|i: int| 0 <= i < self.entries@.len() ==> module_wf(#[trigger] self.entries@[i].module@),
        ensures
            r@.len() == self.entries@.len(),
            forall|i: int| 0 <= i < r@.len() ==> r@[i]@ == reloc_line_full(#[trigger] self.entries@[i]@),
    {
        let mut r: Vec<String> = Vec::new();
        let n = self.entries.len();
        let mut i: usize = 0;
        while i < n
            invariant
                i <= n == self.entries@.len(),
                r@.len() == i,
                forall|j: int| 0 <= j < i ==> r@[j]@ == reloc_line_full(#[trigger] self.entries@[j]@),
            decreases n - i,
        {
            let line = self.entries[i].to_line();
            r.push(line);
            i += 1;
        }
        r
    }
}

// ---------------------------------------------------------------------------
// Laws
// ---------------------------------------------------------------------------

/// The text token of a relocation kind reads back as that kind.
pub proof fn lemma_kind_token_round(k: RelocationKind)
    ensures
        parse_kind_spec(kind_token(k)) == Some(k),
{
    reveal_strlit("arm_call");
    reveal_strlit("thumb_call");
    reveal_strlit("arm_call_thumb");
    reveal_strlit("thumb_call_arm");
    reveal_strlit("arm_branch");
    reveal_strlit("load");
    assert("thumb_call"@ != "arm_call"@) by {
        assert("thumb_call"@.len() != "arm_call"@.len());
    }
    assert("arm_call_thumb"@ != "arm_call"@) by {
        assert("arm_call_thumb"@.len() != "arm_call"@.len());
    }
    assert("arm_call_thumb"@ != "thumb_call"@) by {
        assert("arm_call_thumb"@.len() != "thumb_call"@.len());
    }
    assert("thumb_call_arm"@ != "arm_call"@) by {
        assert("thumb_call_arm"@.len() != "arm_call"@.len());
    }
    assert("thumb_call_arm"@ != "thumb_call"@) by {
        assert("thumb_call_arm"@.len() != "thumb_call"@.len());
    }
    assert("thumb_call_arm"@ != "arm_call_thumb"@) by {
        assert("thumb_call_arm"@[0] != "arm_call_thumb"@[0]);
    }
    assert("arm_branch"@ != "arm_call"@) by {
        assert("arm_branch"@.len() != "arm_call"@.len());
    }
    assert("arm_branch"@ != "thumb_call"@) by {
        assert("arm_branch"@[0] != "thumb_call"@[0]);
    }
    assert("arm_branch"@ != "arm_call_thumb"@) by {
        assert("arm_branch"@.len() != "arm_call_thumb"@.len());
    }
    assert("arm_branch"@ != "thumb_call_arm"@) by {
        assert("arm_branch"@[0] != "thumb_call_arm"@[0]);
    }
    assert("load"@ != "arm_call"@) by {
        assert("load"@.len() != "arm_call"@.len());
    }
    assert("load"@ != "thumb_call"@) by {
        assert("load"@.len() != "thumb_call"@.len());
    }
    assert("load"@ != "arm_call_thumb"@) by {
        assert("load"@.len() != "arm_call_thumb"@.len());
    }
    assert("load"@ != "thumb_call_arm"@) by {
        assert("load"@.len() != "thumb_call_arm"@.len());
    }
    assert("load"@ != "arm_branch"@) by {
        assert("load"@.len() != "arm_branch"@.len());
    }
}

/// An overlay id list joined with commas reads back as the same ids, and
/// holds only digits and commas.
proof fn lemma_ids_join_parse(ids: Seq<u16>)
    requires
        ids.len() >= 1,
    ensures
        parse_ids_spec(comma_pieces(ids_join(ids))) == Ok::<Seq<u16>, Seq<char>>(ids),
        forall|i: int| 0 <= i < ids_join(ids).len()
            ==> dec_digit(#[trigger] ids_join(ids)[i]) || ids_join(ids)[i] == ',',
    decreases ids.len(),
{
    let dec = uint_dec(ids[0] as nat);
    lemma_uint_dec_val(ids[0] as nat);
    lemma_parse_dec_u16(ids[0]);
    if ids.len() == 1 {
        assert(ids_join(ids) == dec);
        lemma_comma_one(dec);
        let ps = comma_pieces(dec);
        assert(ps[0] == dec);
        assert(ps.drop_first() =~= Seq::<Seq<char>>::empty());
        assert(parse_ids_spec(Seq::<Seq<char>>::empty()) == Ok::<Seq<u16>, Seq<char>>(Seq::empty()));
        assert(seq![ids[0]] + Seq::<u16>::empty() =~= ids);
    } else {
        let rest = ids.drop_first();
        lemma_ids_join_parse(rest);
        let jr = ids_join(rest);
        assert(ids_join(ids) == dec + seq![','] + jr);
        lemma_comma_cons(dec, jr);
        let ps = comma_pieces(ids_join(ids));
        assert(ps == seq![dec] + comma_pieces(jr));
        assert(ps[0] == dec);
        assert(ps.drop_first() =~= comma_pieces(jr));
        assert(parse_ids_spec(ps) == Ok::<Seq<u16>, Seq<char>>(seq![ids[0]] + rest));
        assert(seq![ids[0]] + rest =~= ids);
        assert forall|i: int| 0 <= i < ids_join(ids).len()
            implies dec_digit(#[trigger] ids_join(ids)[i]) || ids_join(ids)[i] == ',' by {
            let j = ids_join(ids);
            if i < dec.len() {
                assert(j[i] == dec[i]);
            } else if i == dec.len() {
                assert(j[i] == ',');
            } else {
                assert(j[i] == jr[i - dec.len() - 1]);
            }
        }
    }
}

/// The text token of a destination reads back as that destination, and is
/// plain attribute text.
#[verifier::rlimit(60)]
pub proof fn lemma_module_token_round(m: ModuleView)
    requires
        module_wf(m),
    ensures
        parse_module_spec(module_token(m)) == Ok::<ModuleView, ModuleErrView>(m),
        attr_text(module_token(m)),
        module_token(m).len() > 0,
{
    reveal_strlit("none");
    reveal_strlit("main");
    reveal_strlit("itcm");
    reveal_strlit("dtcm");
    reveal_strlit("overlay");
    reveal_strlit("overlay(");
    reveal_strlit("overlays");
    reveal_strlit("overlays(");
    reveal_strlit(")");
    assert("main"@ != "none"@) by {
        assert("main"@[0] != "none"@[0]);
    }
    assert("itcm"@ != "none"@) by {
        assert("itcm"@[0] != "none"@[0]);
    }
    assert("dtcm"@ != "none"@) by {
        assert("dtcm"@[0] != "none"@[0]);
    }
    assert("itcm"@ != "main"@) by {
        assert("itcm"@[0] != "main"@[0]);
    }
    assert("dtcm"@ != "main"@) by {
        assert("dtcm"@[0] != "main"@[0]);
    }
    assert("dtcm"@ != "itcm"@) by {
        assert("dtcm"@[0] != "itcm"@[0]);
    }
    assert("main"@.len() != "overlay"@.len() && "main"@.len() != "overlays"@.len());
    assert("itcm"@.len() != "overlay"@.len() && "itcm"@.len() != "overlays"@.len());
    assert("dtcm"@.len() != "overlay"@.len() && "dtcm"@.len() != "overlays"@.len());
    let tok = module_token(m);
    match m {
        ModuleView::NoDestination => {
            assert(forall|j: int| 0 <= j < tok.len() ==> #[trigger] tok[j] != '(');
            lemma_paren_none(tok);
        },
        ModuleView::Main => {
            assert(forall|j: int| 0 <= j < tok.len() ==> #[trigger] tok[j] != '(');
            lemma_paren_none(tok);
        },
        ModuleView::Itcm => {
            assert(forall|j: int| 0 <= j < tok.len() ==> #[trigger] tok[j] != '(');
            lemma_paren_none(tok);
        },
        ModuleView::Dtcm => {
            assert(forall|j: int| 0 <= j < tok.len() ==> #[trigger] tok[j] != '(');
            lemma_paren_none(tok);
        },
        ModuleView::Overlay { id } => {
            let dec = uint_dec(id as nat);
            lemma_uint_dec_val(id as nat);
            lemma_parse_dec_u16(id);
            assert(tok =~= "overlay("@ + dec + ")"@);
            assert(tok[7] == '(');
            assert forall|j: int| 0 <= j < 7 implies #[trigger] tok[j] != '(' by {
                assert(tok[j] == "overlay("@[j]);
            }
            assert(tok.last() == ')');
            lemma_paren_at(tok, 7);
            assert(tok.take(7) =~= "overlay"@);
            assert(tok.subrange(8, tok.len() - 1) =~= dec);
            assert("overlay"@ != "none"@) by {
                assert("overlay"@.len() != "none"@.len());
            }
            assert forall|i: int| 0 <= i < tok.len() implies is_attr_char(#[trigger] tok[i]) by {
                if i < 8 {
                    assert(tok[i] == "overlay("@[i]);
                } else if i < tok.len() - 1 {
                    assert(tok[i] == dec[i - 8]);
                    assert(dec_digit(dec[i - 8]));
                } else {
                    assert(tok[i] == ')');
                }
            }
        },
        ModuleView::Overlays { ids } => {
            let join = ids_join(ids);
            lemma_ids_join_parse(ids);
            assert(tok =~= "overlays("@ + join + ")"@);
            assert(tok[8] == '(');
            assert forall|j: int| 0 <= j < 8 implies #[trigger] tok[j] != '(' by {
                assert(tok[j] == "overlays("@[j]);
            }
            assert(tok.last() == ')');
            lemma_paren_at(tok, 8);
            assert(tok.take(8) =~= "overlays"@);
            assert(tok.subrange(9, tok.len() - 1) =~= join);
            assert("overlays"@ != "none"@) by {
                assert("overlays"@.len() != "none"@.len());
            }
            assert("overlays"@ != "overlay"@) by {
                assert("overlays"@.len() != "overlay"@.len());
            }
            assert forall|i: int| 0 <= i < tok.len() implies is_attr_char(#[trigger] tok[i]) by {
                if i < 9 {
                    assert(tok[i] == "overlays("@[i]);
                } else if i < tok.len() - 1 {
                    assert(tok[i] == join[i - 9]);
                } else {
                    assert(tok[i] == ')');
                }
            }
        },
    }
}

/// A token of a serialized relocation line: nonempty, and free of
/// whitespace and slashes, so it survives tokenization and comment
/// stripping.
pub open spec fn line_token(s: Seq<char>) -> bool {
    s.len() > 0 && forall|i: int| 0 <= i < s.len()
        ==> !is_ws_char(#[trigger] s[i]) && s[i] != '/'
}

/// The four fixed attribute tokens of a serialized relocation, their
/// splits, and the key comparisons the reader makes.
#[verifier::rlimit(100)]
#[verifier::spinoff_prover]
proof fn lemma_reloc_token_facts(v: RelocView)
    requires
        module_wf(v.module),
    ensures
        line_token("from:0x"@ + hex_w(v.from as nat, 8)),
        line_token("kind:"@ + kind_token(v.kind)),
        line_token("to:0x"@ + hex_w(v.to as nat, 8)),
        line_token("module:"@ + module_token(v.module)),
        split_attr("from:0x"@ + hex_w(v.from as nat, 8))
            == Some(("from"@, seq!['0', 'x'] + hex_w(v.from as nat, 8))),
        split_attr("kind:"@ + kind_token(v.kind)) == Some(("kind"@, kind_token(v.kind))),
        split_attr("to:0x"@ + hex_w(v.to as nat, 8))
            == Some(("to"@, seq!['0', 'x'] + hex_w(v.to as nat, 8))),
        split_attr("module:"@ + module_token(v.module))
            == Some(("module"@, module_token(v.module))),
        "kind"@ != "from"@ && "kind"@ != "to"@ && "kind"@ != "add"@,
        "to"@ != "from"@ && "to"@ != "add"@,
        "module"@ != "from"@ && "module"@ != "to"@ && "module"@ != "add"@
            && "module"@ != "kind"@,
        "add"@ != "from"@ && "add"@ != "to"@,
{
    reveal_strlit("from:0x");
    reveal_strlit("from");
    reveal_strlit("kind:");
    reveal_strlit("kind");
    reveal_strlit("to:0x");
    reveal_strlit("to");
    reveal_strlit("module:");
    reveal_strlit("module");
    reveal_strlit("add");
    reveal_strlit("arm_call");
    reveal_strlit("thumb_call");
    reveal_strlit("arm_call_thumb");
    reveal_strlit("thumb_call_arm");
    reveal_strlit("arm_branch");
    reveal_strlit("load");
    let hex1 = hex_w(v.from as nat, 8);
    let hex2 = hex_w(v.to as nat, 8);
    lemma_hex_w_lower(v.from as nat, 8);
    lemma_hex_w_lower(v.to as nat, 8);
    lemma_module_token_round(v.module);
    let ktok = kind_token(v.kind);
    let mtok = module_token(v.module);
    let t1 = "from:0x"@ + hex1;
    let t2 = "kind:"@ + ktok;
    let t3 = "to:0x"@ + hex2;
    let t4 = "module:"@ + mtok;
    assert(forall|i: int| 0 <= i < ktok.len()
        ==> (97 <= (#[trigger] ktok[i]) as u32 && ktok[i] as u32 <= 122) || ktok[i] == '_');
    assert forall|i: int| 0 <= i < t1.len()
        implies !is_ws_char(#[trigger] t1[i]) && t1[i] != '/' by {
        if i < 7 {
            assert(t1[i] == "from:0x"@[i]);
        } else {
            assert(t1[i] == hex1[i - 7]);
        }
    }
    assert forall|i: int| 0 <= i < t2.len()
        implies !is_ws_char(#[trigger] t2[i]) && t2[i] != '/' by {
        if i < 5 {
            assert(t2[i] == "kind:"@[i]);
        } else {
            assert(t2[i] == ktok[i - 5]);
        }
    }
    assert forall|i: int| 0 <= i < t3.len()
        implies !is_ws_char(#[trigger] t3[i]) && t3[i] != '/' by {
        if i < 5 {
            assert(t3[i] == "to:0x"@[i]);
        } else {
            assert(t3[i] == hex2[i - 5]);
        }
    }
    assert forall|i: int| 0 <= i < t4.len()
        implies !is_ws_char(#[trigger] t4[i]) && t4[i] != '/' by {
        if i < 7 {
            assert(t4[i] == "module:"@[i]);
        } else {
            assert(t4[i] == mtok[i - 7]);
            assert(is_attr_char(mtok[i - 7]));
        }
    }
    assert(t1[4] == ':');
    assert forall|j: int| 0 <= j < 4 implies #[trigger] t1[j] != ':' by {
        assert(t1[j] == "from:0x"@[j]);
    }
    lemma_split_attr_at(t1, 4);
    assert(t1.take(4) =~= "from"@);
    assert(t1.skip(5) =~= seq!['0', 'x'] + hex1);
    assert(t2[4] == ':');
    assert forall|j: int| 0 <= j < 4 implies #[trigger] t2[j] != ':' by {
        assert(t2[j] == "kind:"@[j]);
    }
    lemma_split_attr_at(t2, 4);
    assert(t2.take(4) =~= "kind"@);
    assert(t2.skip(5) =~= ktok);
    assert(t3[2] == ':');
    assert forall|j: int| 0 <= j < 2 implies #[trigger] t3[j] != ':' by {
        assert(t3[j] == "to:0x"@[j]);
    }
    lemma_split_attr_at(t3, 2);
    assert(t3.take(2) =~= "to"@);
    assert(t3.skip(3) =~= seq!['0', 'x'] + hex2);
    assert(t4[6] == ':');
    assert forall|j: int| 0 <= j < 6 implies #[trigger] t4[j] != ':' by {
        assert(t4[j] == "module:"@[j]);
    }
    lemma_split_attr_at(t4, 6);
    assert(t4.take(6) =~= "module"@);
    assert(t4.skip(7) =~= mtok);
    assert("kind"@ != "from"@) by {
        assert("kind"@[0] != "from"@[0]);
    }
    assert("kind"@ != "to"@) by {
        assert("kind"@.len() != "to"@.len());
    }
    assert("kind"@ != "add"@) by {
        assert("kind"@.len() != "add"@.len());
    }
    assert("to"@ != "from"@) by {
        assert("to"@.len() != "from"@.len());
    }
    assert("to"@ != "add"@) by {
        assert("to"@.len() != "add"@.len());
    }
    assert("module"@ != "from"@) by {
        assert("module"@.len() != "from"@.len());
    }
    assert("module"@ != "to"@) by {
        assert("module"@.len() != "to"@.len());
    }
    assert("module"@ != "add"@) by {
        assert("module"@.len() != "add"@.len());
    }
    assert("module"@ != "kind"@) by {
        assert("module"@[0] != "kind"@[0]);
    }
    assert("add"@ != "from"@) by {
        assert("add"@.len() != "from"@.len());
    }
    assert("add"@ != "to"@) by {
        assert("add"@.len() != "to"@.len());
    }
}

#[verifier::rlimit(100)]
#[verifier::spinoff_prover]
proof fn lemma_reloc_round_no_addend(v: RelocView)
    requires
        module_wf(v.module),
        v.addend == 0,
    ensures
        parse_reloc_spec(reloc_line(v)) == (RelocParse::Val {
            from: v.from, to: v.to, addend: v.addend, kind: v.kind, module: v.module,
        }),
{
    reveal_strlit("from:0x");
    reveal_strlit(" kind:");
    reveal_strlit("kind:");
    reveal_strlit(" to:0x");
    reveal_strlit("to:0x");
    reveal_strlit(" module:");
    reveal_strlit("module:");
    let line = reloc_line(v);
    let hex1 = hex_w(v.from as nat, 8);
    let hex2 = hex_w(v.to as nat, 8);
    lemma_reloc_token_facts(v);
    lemma_parse_hex8(v.from);
    lemma_parse_hex8(v.to);
    lemma_kind_token_round(v.kind);
    lemma_module_token_round(v.module);
    let ktok = kind_token(v.kind);
    let mtok = module_token(v.module);
    let t1 = "from:0x"@ + hex1;
    let t2 = "kind:"@ + ktok;
    let t3 = "to:0x"@ + hex2;
    let t4 = "module:"@ + mtok;
    assert(line =~= t1 + seq![' '] + (t2 + seq![' '] + (t3 + seq![' '] + t4)));
    lemma_tokens_cons(t1, t2 + seq![' '] + (t3 + seq![' '] + t4));
    lemma_tokens_cons(t2, t3 + seq![' '] + t4);
    lemma_tokens_cons(t3, t4);
    lemma_tokens_one(t4);
    let toks = seq![t1, t2, t3, t4];
    assert(tokens(line) =~= toks);
    assert forall|i: int| 0 <= i < line.len() implies #[trigger] line[i] != '/' by {
        let o1 = t1.len() as int;
        let o2 = o1 + 1 + t2.len();
        let o3 = o2 + 1 + t3.len();
        if i < o1 {
            assert(line[i] == t1[i]);
        } else if i == o1 {
            assert(line[i] == ' ');
        } else if i < o2 {
            assert(line[i] == t2[i - o1 - 1]);
        } else if i == o2 {
            assert(line[i] == ' ');
        } else if i < o3 {
            assert(line[i] == t3[i - o2 - 1]);
        } else if i == o3 {
            assert(line[i] == ' ');
        } else {
            assert(line[i] == t4[i - o3 - 1]);
        }
    }
    lemma_strip_comment_id(line);
    assert(tokens(strip_comment(line)) == toks);
    assert(toks[0] == t1);
    assert(toks.drop_first() =~= seq![t2, t3, t4]);
    let st1 = RelocSt { from: Some(v.from), to: None, addend: 0, kind: None, module: None };
    assert(reloc_fold(toks, reloc_init_st()) == reloc_fold(seq![t2, t3, t4], st1));
    assert(seq![t2, t3, t4].drop_first() =~= seq![t3, t4]);
    let st2 = RelocSt { kind: Some(v.kind), ..st1 };
    assert(reloc_fold(seq![t2, t3, t4], st1) == reloc_fold(seq![t3, t4], st2));
    assert(seq![t3, t4].drop_first() =~= seq![t4]);
    let st3 = RelocSt { to: Some(v.to), ..st2 };
    assert(reloc_fold(seq![t3, t4], st2) == reloc_fold(seq![t4], st3));
    assert(seq![t4].drop_first() =~= Seq::<Seq<char>>::empty());
    let st4 = RelocSt { module: Some(v.module), ..st3 };
    assert(reloc_fold(Seq::<Seq<char>>::empty(), st4) == Ok::<RelocSt, RelocParse>(st4));
    assert(reloc_fold(seq![t4], st3) == Ok::<RelocSt, RelocParse>(st4));
}

#[verifier::rlimit(100)]
#[verifier::spinoff_prover]
proof fn lemma_reloc_round_with_addend(v: RelocView)
    requires
        module_wf(v.module),
        v.addend != 0,
    ensures
        parse_reloc_spec(reloc_line(v)) == (RelocParse::Val {
            from: v.from, to: v.to, addend: v.addend, kind: v.kind, module: v.module,
        }),
{
    reveal_strlit("from:0x");
    reveal_strlit(" kind:");
    reveal_strlit("kind:");
    reveal_strlit(" to:0x");
    reveal_strlit("to:0x");
    reveal_strlit(" module:");
    reveal_strlit("module:");
    reveal_strlit(" add:");
    reveal_strlit("add:");
    reveal_strlit("add");
    let line = reloc_line(v);
    let hex1 = hex_w(v.from as nat, 8);
    let hex2 = hex_w(v.to as nat, 8);
    lemma_reloc_token_facts(v);
    lemma_parse_hex8(v.from);
    lemma_parse_hex8(v.to);
    lemma_kind_token_round(v.kind);
    lemma_module_token_round(v.module);
    let ktok = kind_token(v.kind);
    let mtok = module_token(v.module);
    let t1 = "from:0x"@ + hex1;
    let t2 = "kind:"@ + ktok;
    let t3 = "to:0x"@ + hex2;
    let t4 = "module:"@ + mtok;
    let adec = int_dec(v.addend as int);
    lemma_parse_int_dec(v.addend);
    let t5 = "add:"@ + adec;
    assert forall|i: int| 0 <= i < adec.len()
        implies !is_ws_char(#[trigger] adec[i]) && adec[i] != '/' by {
        if v.addend < 0 {
            lemma_uint_dec_lower((-(v.addend as int)) as nat);
            if i == 0 {
                assert(adec[i] == '-');
            } else {
                assert(adec[i] == uint_dec((-(v.addend as int)) as nat)[i - 1]);
            }
        } else {
            lemma_uint_dec_lower(v.addend as nat);
        }
    }
    assert forall|i: int| 0 <= i < t5.len()
        implies !is_ws_char(#[trigger] t5[i]) && t5[i] != '/' by {
        if i < 4 {
            assert(t5[i] == "add:"@[i]);
        } else {
            assert(t5[i] == adec[i - 4]);
        }
    }
    assert(t5[3] == ':');
    assert forall|j: int| 0 <= j < 3 implies #[trigger] t5[j] != ':' by {
        assert(t5[j] == "add:"@[j]);
    }
    lemma_split_attr_at(t5, 3);
    assert(t5.take(3) =~= "add"@);
    assert(t5.skip(4) =~= adec);
    assert(line =~= t1 + seq![' ']
        + (t2 + seq![' '] + (t3 + seq![' '] + (t4 + seq![' '] + t5))));
    lemma_tokens_cons(t1, t2 + seq![' '] + (t3 + seq![' '] + (t4 + seq![' '] + t5)));
    lemma_tokens_cons(t2, t3 + seq![' '] + (t4 + seq![' '] + t5));
    lemma_tokens_cons(t3, t4 + seq![' '] + t5);
    lemma_tokens_cons(t4, t5);
    lemma_tokens_one(t5);
    let toks = seq![t1, t2, t3, t4, t5];
    assert(tokens(line) =~= toks);
    assert forall|i: int| 0 <= i < line.len() implies #[trigger] line[i] != '/' by {
        let o1 = t1.len() as int;
        let o2 = o1 + 1 + t2.len();
        let o3 = o2 + 1 + t3.len();
        let o4 = o3 + 1 + t4.len();
        if i < o1 {
            assert(line[i] == t1[i]);
        } else if i == o1 {
            assert(line[i] == ' ');
        } else if i < o2 {
            assert(line[i] == t2[i - o1 - 1]);
        } else if i == o2 {
            assert(line[i] == ' ');
        } else if i < o3 {
            assert(line[i] == t3[i - o2 - 1]);
        } else if i == o3 {
            assert(line[i] == ' ');
        } else if i < o4 {
            assert(line[i] == t4[i - o3 - 1]);
        } else if i == o4 {
            assert(line[i] == ' ');
        } else {
            assert(line[i] == t5[i - o4 - 1]);
        }
    }
    lemma_strip_comment_id(line);
    assert(tokens(strip_comment(line)) == toks);
    assert(toks[0] == t1);
    assert(toks.drop_first() =~= seq![t2, t3, t4, t5]);
    let st1 = RelocSt { from: Some(v.from), to: None, addend: 0, kind: None, module: None };
    assert(reloc_fold(toks, reloc_init_st()) == reloc_fold(seq![t2, t3, t4, t5], st1));
    assert(seq![t2, t3, t4, t5].drop_first() =~= seq![t3, t4, t5]);
    let st2 = RelocSt { kind: Some(v.kind), ..st1 };
    assert(reloc_fold(seq![t2, t3, t4, t5], st1) == reloc_fold(seq![t3, t4, t5], st2));
    assert(seq![t3, t4, t5].drop_first() =~= seq![t4, t5]);
    let st3 = RelocSt { to: Some(v.to), ..st2 };
    assert(reloc_fold(seq![t3, t4, t5], st2) == reloc_fold(seq![t4, t5], st3));
    assert(seq![t4, t5].drop_first() =~= seq![t5]);
    let st4 = RelocSt { module: Some(v.module), ..st3 };
    assert(reloc_fold(seq![t4, t5], st3) == reloc_fold(seq![t5], st4));
    assert(seq![t5].drop_first() =~= Seq::<Seq<char>>::empty());
    let st5 = RelocSt { addend: v.addend, ..st4 };
    assert(reloc_fold(Seq::<Seq<char>>::empty(), st5) == Ok::<RelocSt, RelocParse>(st5));
    assert(reloc_fold(seq![t5], st4) == Ok::<RelocSt, RelocParse>(st5));
}

/// Serializing a relocation yields a line that reads back to the same
/// record: all four required attributes and the stored addend survive the
/// round trip (the free-text annotation is a comment, never an attribute).
pub proof fn lemma_reloc_line_round_trip(v: RelocView)
    requires
        module_wf(v.module),
    ensures
        parse_reloc_spec(reloc_line(v)) == (RelocParse::Val {
            from: v.from, to: v.to, addend: v.addend, kind: v.kind, module: v.module,
        }),
{
    if v.addend == 0 {
        lemma_reloc_round_no_addend(v);
    } else {
        lemma_reloc_round_with_addend(v);
    }
}

} // verus!
