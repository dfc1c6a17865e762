//! The shared attribute-line layer: comment stripping, whitespace
//! tokenization, `key:value` splitting, `name(options)` splitting and
//! comma-separated option lists, over sequences of characters.

use vstd::prelude::*;

verus! {

/// Position of a line within a configuration file, carried by parse errors.
#[derive(Clone, Debug, PartialEq, Eq)]
pub struct ParseContext {
    pub file_path: String,
    pub row: usize,
}

impl ParseContext {
    pub fn new(file_path: String, row: usize) -> (r: ParseContext)
        ensures
            r.file_path == file_path,
            r.row == row,
    {
        ParseContext { file_path, row }
    }

    /// A field-wise copy of this context.
    pub fn duplicate(&self) -> (r: ParseContext)
        ensures
            r.file_path@ == self.file_path@,
            r.row == self.row,
    {
        ParseContext { file_path: self.file_path.clone(), row: self.row }
    }
}

// ---------------------------------------------------------------------------
// Character classes and scanning
// ---------------------------------------------------------------------------

/// ASCII whitespace, the separators between attribute tokens.
pub open spec fn is_ws_char(c: char) -> bool {
    c == ' ' || c == '\t' || c == '\r' || c == '\n' || c == '\u{b}' || c == '\u{c}'
}

pub fn ws_char(c: char) -> (r: bool)
    ensures
        r == is_ws_char(c),
{
    c == ' ' || c == '\t' || c == '\r' || c == '\n' || c == '\u{b}' || c == '\u{c}'
}

/// Length of the prefix of `s` before the first character satisfying `stop`.
pub open spec fn scan_len(s: Seq<char>, stop: spec_fn(char) -> bool) -> nat
    decreases s.len(),
{
    if s.len() == 0 {
        0
    } else if stop(s[0]) {
        0
    } else {
        1 + scan_len(s.drop_first(), stop)
    }
}

pub proof fn lemma_scan_len_le(s: Seq<char>, stop: spec_fn(char) -> bool)
    ensures
        scan_len(s, stop) <= s.len(),
    decreases s.len(),
{
    if s.len() != 0 && !stop(s[0]) {
        lemma_scan_len_le(s.drop_first(), stop);
    }
}

/// `scan_len` is exactly the index of the first stop character.
pub proof fn lemma_scan_len_at(s: Seq<char>, stop: spec_fn(char) -> bool, k: int)
    requires
        0 <= k <= s.len(),
        forall|j: int| 0 <= j < k ==> !stop(#[trigger] s[j]),
        k == s.len() || stop(s[k]),
    ensures
        scan_len(s, stop) == k,
    decreases k,
{
    if k > 0 {
        let t = s.drop_first();
        assert(forall|j: int| 0 <= j < k - 1 ==> #[trigger] t[j] == s[j + 1]);
        lemma_scan_len_at(t, stop, k - 1);
    }
}

// ---------------------------------------------------------------------------
// Comment stripping
// ---------------------------------------------------------------------------

/// The line up to (and excluding) the first `//`.
pub open spec fn strip_comment(s: Seq<char>) -> Seq<char>
    decreases s.len(),
{
    if s.len() >= 2 && s[0] == '/' && s[1] == '/' {
        Seq::empty()
    } else if s.len() == 0 {
        s
    } else {
        seq![s[0]] + strip_comment(s.drop_first())
    }
}

pub fn strip_comment_chars(s: &Vec<char>) -> (r: Vec<char>)
    ensures
        r@ == strip_comment(s@),
{
    let mut r: Vec<char> = Vec::new();
    let mut i: usize = 0;
    proof {
        assert(s@.skip(0) =~= s@);
        assert(Seq::<char>::empty() + strip_comment(s@) =~= strip_comment(s@));
    }
    while i < s.len()
        invariant
            i <= s@.len(),
            r@.len() == i,
            strip_comment(s@) == r@ + strip_comment(s@.skip(i as int)),
        decreases s@.len() - i,
    {
        let ghost tail = s@.skip(i as int);
        proof {
            assert(tail[0] == s@[i as int]);
            if tail.len() >= 2 {
                assert(tail[1] == s@[i as int + 1]);
            }
        }
        if i + 1 < s.len() && s[i] == '/' && s[i + 1] == '/' {
            proof {
                assert(strip_comment(tail) =~= Seq::<char>::empty());
                assert(r@ + strip_comment(tail) =~= r@);
            }
            return r;
        }
        r.push(s[i]);
        proof {
            assert(tail.drop_first() =~= s@.skip(i as int + 1));
            assert(strip_comment(tail) == seq![s@[i as int]] + strip_comment(s@.skip(i as int + 1)));
        }
        i += 1;
        assert(strip_comment(s@) =~= r@ + strip_comment(s@.skip(i as int)));
    }
    proof {
        assert(s@.skip(i as int) =~= Seq::<char>::empty());
        assert(r@ + Seq::<char>::empty() =~= r@);
    }
    r
}

// ---------------------------------------------------------------------------
// Whitespace tokenization
// ---------------------------------------------------------------------------

/// The whitespace-separated tokens of a line, in order, each nonempty.
pub open spec fn tokens(s: Seq<char>) -> Seq<Seq<char>>
    decreases s.len(),
    via tokens_decreases
{
    if s.len() == 0 {
        Seq::empty()
    } else if is_ws_char(s[0]) {
        tokens(s.drop_first())
    } else {
        let k = scan_len(s, |c: char| is_ws_char(c)) as int;
        seq![s.take(k)] + tokens(s.skip(k))
    }
}

#[via_fn]
proof fn tokens_decreases(s: Seq<char>) {
    if s.len() != 0 && !is_ws_char(s[0]) {
        lemma_scan_len_le(s, |c: char| is_ws_char(c));
        assert(scan_len(s, |c: char| is_ws_char(c)) >= 1);
    }
}

/// The views of a vector of character vectors.
pub open spec fn views(ts: Seq<Vec<char>>) -> Seq<Seq<char>> {
    ts.map_values(|t: Vec<char>| t@)
}

pub fn tokenize(s: &Vec<char>) -> (r: Vec<Vec<char>>)
    ensures
        views(r@) == tokens(s@),
{
    let mut r: Vec<Vec<char>> = Vec::new();
    let mut i: usize = 0;
    proof {
        assert(s@.skip(0) =~= s@);
        assert(views(r@) + tokens(s@) =~= tokens(s@));
    }
    while i < s.len()
        invariant
            i <= s@.len(),
            tokens(s@) == views(r@) + tokens(s@.skip(i as int)),
        decreases s@.len() - i,
    {
        let ghost tail = s@.skip(i as int);
        assert(tail[0] == s@[i as int]);
        if ws_char(s[i]) {
            proof {
                assert(tail.drop_first() =~= s@.skip(i as int + 1));
            }
            i += 1;
        } else {
            let start = i;
            let mut t: Vec<char> = Vec::new();
            while i < s.len() && !ws_char(s[i])
                invariant
                    start <= i <= s@.len(),
                    t@ == s@.subrange(start as int, i as int),
                    forall|j: int| start <= j < i ==> !is_ws_char(#[trigger] s@[j]),
                decreases s@.len() - i,
            {
                t.push(s[i]);
                i += 1;
                assert(t@ =~= s@.subrange(start as int, i as int));
            }
            proof {
                let st = s@.skip(start as int);
                let k = i - start;
                assert(forall|j: int| 0 <= j < k ==> #[trigger] st[j] == s@[j + start]);
                assert(k == st.len() || is_ws_char(st[k]));
                lemma_scan_len_at(st, |c: char| is_ws_char(c), k);
                assert(st.take(k) =~= s@.subrange(start as int, i as int));
                assert(st.skip(k) =~= s@.skip(i as int));
                assert(tokens(st) == seq![t@] + tokens(s@.skip(i as int)));
            }
            let ghost old_r = r@;
            r.push(t);
            proof {
                assert(views(r@) =~= views(old_r) + seq![t@]);
                assert(views(old_r) + (seq![t@] + tokens(s@.skip(i as int)))
                    =~= (views(old_r) + seq![t@]) + tokens(s@.skip(i as int)));
            }
        }
    }
    proof {
        assert(s@.skip(i as int) =~= Seq::<char>::empty());
        assert(views(r@) + Seq::<Seq<char>>::empty() =~= views(r@));
    }
    r
}

// ---------------------------------------------------------------------------
// key:value splitting
// ---------------------------------------------------------------------------

/// Splits a token at its first `:` into key and value; a token without a
/// colon does not form an attribute.
pub open spec fn split_attr(t: Seq<char>) -> Option<(Seq<char>, Seq<char>)> {
    let k = scan_len(t, |c: char| c == ':') as int;
    if k == t.len() {
        None
    } else {
        Some((t.take(k), t.skip(k + 1)))
    }
}

pub fn split_attr_chars(t: &Vec<char>) -> (r: Option<(Vec<char>, Vec<char>)>)
    ensures
        match r {
            Some((key, value)) => split_attr(t@) == Some((key@, value@)),
            None => split_attr(t@) is None,
        },
{
    let mut i: usize = 0;
    while i < t.len() && t[i] != ':'
        invariant
            i <= t@.len(),
            forall|j: int| 0 <= j < i ==> #[trigger] t@[j] != ':',
        decreases t@.len() - i,
    {
        i += 1;
    }
    proof {
        lemma_scan_len_at(t@, |c: char| c == ':', i as int);
    }
    if i == t.len() {
        None
    } else {
        let mut key: Vec<char> = Vec::new();
        let mut j: usize = 0;
        while j < i
            invariant
                j <= i <= t@.len(),
                key@ == t@.take(i as int).take(j as int),
            decreases i - j,
        {
            key.push(t[j]);
            j += 1;
            assert(key@ =~= t@.take(i as int).take(j as int));
        }
        let mut value: Vec<char> = Vec::new();
        let mut m: usize = i + 1;
        while m < t.len()
            invariant
                i + 1 <= m <= t@.len(),
                value@ == t@.skip(i as int + 1).take(m - i - 1),
            decreases t@.len() - m,
        {
            value.push(t[m]);
            m += 1;
            assert(value@ =~= t@.skip(i as int + 1).take(m - i - 1));
        }
        proof {
            assert(key@ =~= t@.take(i as int));
            assert(value@ =~= t@.skip(i as int + 1));
        }
        Some((key, value))
    }
}

// ---------------------------------------------------------------------------
// name(options) splitting
// ---------------------------------------------------------------------------

/// The part of a token before its first `(`.
pub open spec fn paren_name(t: Seq<char>) -> Seq<char> {
    t.take(scan_len(t, |c: char| c == '(') as int)
}

/// The part after the first `(`, with one trailing `)` dropped if present.
/// A token without parentheses has empty options.
pub open spec fn paren_options(t: Seq<char>) -> Seq<char> {
    let p = scan_len(t, |c: char| c == '(') as int;
    if p == t.len() {
        Seq::empty()
    } else {
        let o = t.skip(p + 1);
        if o.len() > 0 && o.last() == ')' {
            o.drop_last()
        } else {
            o
        }
    }
}

pub fn split_paren_chars(t: &Vec<char>) -> (r: (Vec<char>, Vec<char>))
    ensures
        r.0@ == paren_name(t@),
        r.1@ == paren_options(t@),
{
    let mut i: usize = 0;
    while i < t.len() && t[i] != '('
        invariant
            i <= t@.len(),
            forall|j: int| 0 <= j < i ==> #[trigger] t@[j] != '(',
        decreases t@.len() - i,
    {
        i += 1;
    }
    proof {
        lemma_scan_len_at(t@, |c: char| c == '(', i as int);
    }
    let mut name: Vec<char> = Vec::new();
    let mut j: usize = 0;
    while j < i
        invariant
            j <= i <= t@.len(),
            name@ == t@.take(i as int).take(j as int),
        decreases i - j,
    {
        name.push(t[j]);
        j += 1;
        assert(name@ =~= t@.take(i as int).take(j as int));
    }
    assert(name@ =~= t@.take(i as int));
    if i == t.len() {
        let opts: Vec<char> = Vec::new();
        (name, opts)
    } else {
        let mut stop = t.len();
        if t[t.len() - 1] == ')' && t.len() - 1 > i {
            stop = t.len() - 1;
        }
        let mut opts: Vec<char> = Vec::new();
        let mut m: usize = i + 1;
        while m < stop
            invariant
                i + 1 <= m <= stop <= t@.len(),
                opts@ == t@.skip(i as int + 1).take(m - i - 1),
            decreases stop - m,
        {
            opts.push(t[m]);
            m += 1;
            assert(opts@ =~= t@.skip(i as int + 1).take(m - i - 1));
        }
        proof {
            let o = t@.skip(i as int + 1);
            if o.len() > 0 && o.last() == ')' {
                assert(opts@ =~= o.drop_last());
            } else {
                assert(opts@ =~= o);
            }
        }
        (name, opts)
    }
}

// ---------------------------------------------------------------------------
// Comma-separated pieces
// ---------------------------------------------------------------------------

/// The comma-separated pieces of a string; an empty string has one empty
/// piece, and empty pieces between commas are kept.
pub open spec fn comma_pieces(s: Seq<char>) -> Seq<Seq<char>>
    decreases s.len(),
{
    let p = scan_len(s, |c: char| c == ',') as int;
    if p >= s.len() {
        seq![s]
    } else {
        seq![s.take(p)] + comma_pieces(s.skip(p + 1))
    }
}

pub fn comma_pieces_chars(s: &Vec<char>) -> (r: Vec<Vec<char>>)
    ensures
        views(r@) == comma_pieces(s@),
{
    let mut r: Vec<Vec<char>> = Vec::new();
    let mut start: usize = 0;
    proof {
        assert(s@.skip(0) =~= s@);
        assert(views(r@) + comma_pieces(s@) =~= comma_pieces(s@));
    }
    loop
        invariant
            start <= s@.len(),
            comma_pieces(s@) == views(r@) + comma_pieces(s@.skip(start as int)),
        decreases s@.len() - start + 1,
    {
        let mut i = start;
        while i < s.len() && s[i] != ','
            invariant
                start <= i <= s@.len(),
                forall|j: int| start <= j < i ==> #[trigger] s@[j] != ',',
            decreases s@.len() - i,
        {
            i += 1;
        }
        let mut piece: Vec<char> = Vec::new();
        let mut j = start;
        while j < i
            invariant
                start <= j <= i <= s@.len(),
                piece@ == s@.subrange(start as int, j as int),
            decreases i - j,
        {
            piece.push(s[j]);
            j += 1;
            assert(piece@ =~= s@.subrange(start as int, j as int));
        }
        proof {
            let st = s@.skip(start as int);
            let k = i - start;
            assert(forall|m: int| 0 <= m < k ==> #[trigger] st[m] == s@[m + start]);
            assert(k == st.len() || st[k] == ',');
            lemma_scan_len_at(st, |c: char| c == ',', k);
            assert(st.take(k) =~= s@.subrange(start as int, i as int));
        }
        let ghost old_r = r@;
        r.push(piece);
        proof {
            assert(views(r@) =~= views(old_r) + seq![piece@]);
        }
        if i == s.len() {
            proof {
                let st = s@.skip(start as int);
                assert(st.take(i - start) =~= st);
                assert(comma_pieces(st) == seq![piece@]);
                assert(views(old_r) + seq![piece@] =~= views(r@));
            }
            return r;
        }
        proof {
            let st = s@.skip(start as int);
            let k = i - start;
            assert(st.skip(k + 1) =~= s@.skip(i as int + 1));
            assert(comma_pieces(st) == seq![piece@] + comma_pieces(s@.skip(i as int + 1)));
            assert(views(old_r) + (seq![piece@] + comma_pieces(s@.skip(i as int + 1)))
                =~= views(r@) + comma_pieces(s@.skip(i as int + 1)));
        }
        start = i + 1;
    }
}

// ---------------------------------------------------------------------------
// key=value splitting inside options
// ---------------------------------------------------------------------------

/// Splits an option piece at its first `=`, if any.
pub open spec fn split_eq(t: Seq<char>) -> Option<(Seq<char>, Seq<char>)> {
    let k = scan_len(t, |c: char| c == '=') as int;
    if k == t.len() {
        None
    } else {
        Some((t.take(k), t.skip(k + 1)))
    }
}

pub fn split_eq_chars(t: &Vec<char>) -> (r: Option<(Vec<char>, Vec<char>)>)
    ensures
        match r {
            Some((key, value)) => split_eq(t@) == Some((key@, value@)),
            None => split_eq(t@) is None,
        },
{
    let mut i: usize = 0;
    while i < t.len() && t[i] != '='
        invariant
            i <= t@.len(),
            forall|j: int| 0 <= j < i ==> #[trigger] t@[j] != '=',
        decreases t@.len() - i,
    {
        i += 1;
    }
    proof {
        lemma_scan_len_at(t@, |c: char| c == '=', i as int);
    }
    if i == t.len() {
        None
    } else {
        let mut key: Vec<char> = Vec::new();
        let mut j: usize = 0;
        while j < i
            invariant
                j <= i <= t@.len(),
                key@ == t@.take(i as int).take(j as int),
            decreases i - j,
        {
            key.push(t[j]);
            j += 1;
            assert(key@ =~= t@.take(i as int).take(j as int));
        }
        let mut value: Vec<char> = Vec::new();
        let mut m: usize = i + 1;
        while m < t.len()
            invariant
                i + 1 <= m <= t@.len(),
                value@ == t@.skip(i as int + 1).take(m - i - 1),
            decreases t@.len() - m,
        {
            value.push(t[m]);
            m += 1;
            assert(value@ =~= t@.skip(i as int + 1).take(m - i - 1));
        }
        proof {
            assert(key@ =~= t@.take(i as int));
            assert(value@ =~= t@.skip(i as int + 1));
        }
        Some((key, value))
    }
}

// ---------------------------------------------------------------------------
// Characters <-> strings, and comparison against literals
// ---------------------------------------------------------------------------

/// The characters of a string, in order.
pub fn str_to_chars(s: &str) -> (r: Vec<char>)
    ensures
        r@ == s@,
{
    let n = s.unicode_len();
    let mut r: Vec<char> = Vec::new();
    let mut i: usize = 0;
    while i < n
        invariant
            i <= n == s@.len(),
            r@ == s@.take(i as int),
        decreases n - i,
    {
        r.push(s.get_char(i));
        i += 1;
        assert(r@ =~= s@.take(i as int));
    }
    assert(r@ =~= s@);
    r
}

/// Relies on `String::from_iter` over `char`: the string holds exactly the
/// given characters in order.
#[verifier::external_body]
pub fn chars_to_string(v: &Vec<char>) -> (r: String)
    ensures
        r@ == v@,
{
    v.iter().collect()
}

/// Whether a character vector spells the same text as a string slice.
pub fn chars_eq_str(v: &Vec<char>, s: &str) -> (r: bool)
    ensures
        r == (v@ == s@),
{
    let n = s.unicode_len();
    if v.len() != n {
        proof {
            assert(v@ != s@);
        }
        return false;
    }
    let mut i: usize = 0;
    while i < n
        invariant
            i <= n == s@.len() == v@.len(),
            forall|j: int| 0 <= j < i ==> #[trigger] v@[j] == s@[j],
        decreases n - i,
    {
        if v[i] != s.get_char(i) {
            return false;
        }
        i += 1;
    }
    proof {
        assert(v@ =~= s@);
    }
    true
}

/// Appends the characters of a string slice.
pub fn push_str_chars(out: &mut Vec<char>, s: &str)
    ensures
        final(out)@ == old(out)@ + s@,
{
    let n = s.unicode_len();
    let mut i: usize = 0;
    while i < n
        invariant
            i <= n == s@.len(),
            out@ == old(out)@ + s@.take(i as int),
        decreases n - i,
    {
        out.push(s.get_char(i));
        i += 1;
        assert(out@ =~= old(out)@ + s@.take(i as int));
    }
    assert(out@ =~= old(out)@ + s@);
}

/// Appends all characters of another vector.
pub fn push_chars(out: &mut Vec<char>, s: &Vec<char>)
    ensures
        final(out)@ == old(out)@ + s@,
{
    let mut i: usize = 0;
    while i < s.len()
        invariant
            i <= s@.len(),
            out@ == old(out)@ + s@.take(i as int),
        decreases s@.len() - i,
    {
        out.push(s[i]);
        i += 1;
        assert(out@ =~= old(out)@ + s@.take(i as int));
    }
    assert(out@ =~= old(out)@ + s@);
}

// ---------------------------------------------------------------------------
// Facts for round-trip proofs
// ---------------------------------------------------------------------------

/// A character a serialized attribute value may hold: lower-case letters,
/// digits and the grammar's own punctuation — never whitespace, `/` or `:`.
pub open spec fn is_attr_char(c: char) -> bool {
    c == '(' || c == ')' || c == ',' || c == '=' || c == '.' || c == '_'
        || (97 <= c as u32 && c as u32 <= 122)
        || (48 <= c as u32 && c as u32 <= 57)
}

pub open spec fn attr_text(s: Seq<char>) -> bool {
    forall|i: int| 0 <= i < s.len() ==> is_attr_char(#[trigger] s[i])
}

/// A line with no `//` anywhere is kept whole.
pub proof fn lemma_strip_comment_id(s: Seq<char>)
    requires
        forall|i: int| 0 <= i < s.len() - 1 ==> !(#[trigger] s[i] == '/' && s[i + 1] == '/'),
    ensures
        strip_comment(s) == s,
    decreases s.len(),
{
    if s.len() > 0 {
        let t = s.drop_first();
        assert(forall|j: int| 0 <= j < t.len() - 1 ==> #[trigger] t[j] == s[j + 1] && t[j + 1] == s[j + 2]);
        lemma_strip_comment_id(t);
        assert(seq![s[0]] + t =~= s);
    }
}

/// A nonempty text without whitespace is a single token.
pub proof fn lemma_tokens_one(a: Seq<char>)
    requires
        a.len() > 0,
        forall|i: int| 0 <= i < a.len() ==> !is_ws_char(#[trigger] a[i]),
    ensures
        tokens(a) == seq![a],
{
    lemma_scan_len_at(a, |c: char| is_ws_char(c), a.len() as int);
    assert(a.take(a.len() as int) =~= a);
    assert(a.skip(a.len() as int) =~= Seq::<char>::empty());
    assert(seq![a] + tokens(Seq::<char>::empty()) =~= seq![a]);
}

/// A leading token and a space prepend one token.
pub proof fn lemma_tokens_cons(a: Seq<char>, b: Seq<char>)
    requires
        a.len() > 0,
        forall|i: int| 0 <= i < a.len() ==> !is_ws_char(#[trigger] a[i]),
    ensures
        tokens(a + seq![' '] + b) == seq![a] + tokens(b),
{
    let s = a + seq![' '] + b;
    assert(forall|j: int| 0 <= j < a.len() ==> #[trigger] s[j] == a[j]);
    assert(s[a.len() as int] == ' ');
    lemma_scan_len_at(s, |c: char| is_ws_char(c), a.len() as int);
    assert(s.take(a.len() as int) =~= a);
    assert(s.skip(a.len() as int) =~= seq![' '] + b);
    let t = seq![' '] + b;
    assert(is_ws_char(t[0]));
    assert(t.drop_first() =~= b);
    assert(s.len() != 0 && !is_ws_char(s[0]));
    assert(tokens(s) == seq![s.take(a.len() as int)] + tokens(s.skip(a.len() as int)));
    assert(tokens(t) == tokens(b));
    assert(tokens(s) == seq![a] + tokens(b));
}

/// Splitting at a known first colon.
pub proof fn lemma_split_attr_at(t: Seq<char>, k: int)
    requires
        0 <= k < t.len(),
        t[k] == ':',
        forall|j: int| 0 <= j < k ==> #[trigger] t[j] != ':',
    ensures
        split_attr(t) == Some((t.take(k), t.skip(k + 1))),
{
    lemma_scan_len_at(t, |c: char| c == ':', k);
}

/// Splitting at a known first parenthesis, with a closing one at the end.
pub proof fn lemma_paren_at(t: Seq<char>, p: int)
    requires
        0 <= p < t.len() - 1,
        t[p] == '(',
        forall|j: int| 0 <= j < p ==> #[trigger] t[j] != '(',
        t.last() == ')',
    ensures
        paren_name(t) == t.take(p),
        paren_options(t) == t.subrange(p + 1, t.len() - 1),
{
    lemma_scan_len_at(t, |c: char| c == '(', p);
    let o = t.skip(p + 1);
    assert(o.len() > 0);
    assert(o.last() == t.last());
    assert(o.drop_last() =~= t.subrange(p + 1, t.len() - 1));
}

/// A token without parentheses is all name and no options.
pub proof fn lemma_paren_none(t: Seq<char>)
    requires
        forall|j: int| 0 <= j < t.len() ==> #[trigger] t[j] != '(',
    ensures
        paren_name(t) == t,
        paren_options(t) == Seq::<char>::empty(),
{
    lemma_scan_len_at(t, |c: char| c == '(', t.len() as int);
    assert(t.take(t.len() as int) =~= t);
}

/// A text without commas is a single piece.
pub proof fn lemma_comma_one(a: Seq<char>)
    requires
        forall|j: int| 0 <= j < a.len() ==> #[trigger] a[j] != ',',
    ensures
        comma_pieces(a) == seq![a],
{
    lemma_scan_len_at(a, |c: char| c == ',', a.len() as int);
    assert(a.take(a.len() as int) =~= a);
}

/// A leading piece and a comma prepend one piece.
pub proof fn lemma_comma_cons(a: Seq<char>, b: Seq<char>)
    requires
        forall|j: int| 0 <= j < a.len() ==> #[trigger] a[j] != ',',
    ensures
        comma_pieces(a + seq![','] + b) == seq![a] + comma_pieces(b),
{
    let s = a + seq![','] + b;
    assert(forall|j: int| 0 <= j < a.len() ==> #[trigger] s[j] == a[j]);
    assert(s[a.len() as int] == ',');
    lemma_scan_len_at(s, |c: char| c == ',', a.len() as int);
    assert(s.take(a.len() as int) =~= a);
    assert(s.skip(a.len() as int + 1) =~= b);
}

/// An option piece without `=` does not split.
pub proof fn lemma_split_eq_none(t: Seq<char>)
    requires
        forall|j: int| 0 <= j < t.len() ==> #[trigger] t[j] != '=',
    ensures
        split_eq(t) is None,
{
    lemma_scan_len_at(t, |c: char| c == '=', t.len() as int);
}

/// Splitting at a known first `=`.
pub proof fn lemma_split_eq_at(t: Seq<char>, k: int)
    requires
        0 <= k < t.len(),
        t[k] == '=',
        forall|j: int| 0 <= j < k ==> #[trigger] t[j] != '=',
    ensures
        split_eq(t) == Some((t.take(k), t.skip(k + 1))),
{
    lemma_scan_len_at(t, |c: char| c == '=', k);
}

} // verus!
