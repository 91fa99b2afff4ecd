//! The mini template language for filename shapes. A pattern string is
//! tokenized into literal spans and `{name}` placeholders; a compiled
//! pattern also records its placeholder set, which must be duplicate
//! free. Positions in errors count characters from the start of the
//! normalized pattern.

use vstd::prelude::*;

use crate::text::has_substring;
use crate::text::usize_to_string;

verus! {

/// A named capturing field of a pattern. The name is non-empty; the
/// reserved name `N` marks the numeric field.
#[derive(Debug)]
pub struct Placeholder(pub(crate) String);

impl View for Placeholder {
    type V = Seq<char>;

    closed spec fn view(&self) -> Seq<char> {
        self.0@
    }
}

/// The reserved numeric placeholder name.
pub open spec fn is_number_name(name: Seq<char>) -> bool {
    name == seq!['N']
}

impl Placeholder {
    /// A placeholder from a raw name; the empty name is rejected.
    pub fn new(value: &str) -> (r: Result<Self, PatternError>)
        ensures
            value@.len() == 0 <==> (r is Err),
            r is Ok ==> r->Ok_0@ == value@,
            r is Err ==> r->Err_0@ == PatternErrorView::EmptyPlaceholder,
    {
        if value.unicode_len() == 0 {
            Err(PatternError::EmptyPlaceholder)
        } else {
            Ok(Placeholder(value.to_owned()))
        }
    }

    pub fn name(&self) -> (r: &str)
        ensures
            r@ == self@,
    {
        self.0.as_str()
    }

    /// Whether this is the reserved numeric field.
    pub fn is_number(&self) -> (r: bool)
        ensures
            r == is_number_name(self@),
    {
        proof {
            reveal_strlit("N");
        }
        let n: usize = self.0.as_str().unicode_len();
        if n != 1 {
            assert(self@ != seq!['N']);
            return false;
        }
        let c = self.0.as_str().get_char(0);
        assert(c == 'N' ==> self@ =~= seq!['N']);
        assert(self@ == seq!['N'] ==> c == 'N');
        c == 'N'
    }

    /// A placeholder from an owned name, for the fixed grammars the
    /// crate itself defines.
    pub(crate) fn from_name(name: String) -> (r: Placeholder)
        ensures
            r@ == name@,
    {
        Placeholder(name)
    }

    /// A copy of this placeholder.
    pub fn duplicate(&self) -> (r: Placeholder)
        ensures
            r@ == self@,
    {
        Placeholder(self.0.clone())
    }
}

/// One span of a compiled pattern: literal text, or a placeholder.
#[derive(Debug)]
pub enum Token {
    Literal(String),
    Placeholder(Placeholder),
}

/// The mathematical shape of a token.
pub enum TokenView {
    Lit(Seq<char>),
    Ph(Seq<char>),
}

impl View for Token {
    type V = TokenView;

    open spec fn view(&self) -> TokenView {
        match self {
            Token::Literal(s) => TokenView::Lit(s@),
            Token::Placeholder(p) => TokenView::Ph(p@),
        }
    }
}

/// The token sequence as token views.
pub open spec fn tokens_view(ts: Seq<Token>) -> Seq<TokenView> {
    ts.map(|i: int, t: Token| t@)
}

/// A malformed template, by the error taxonomy for pattern syntax.
#[derive(Debug)]
pub enum PatternError {
    /// A `{` opened inside a placeholder name.
    NestedPlaceholder,
    /// The pattern ended before a `}` closed the open placeholder.
    UnclosedPlaceholder,
    /// A `{}` placeholder with no name.
    EmptyPlaceholder,
    /// A bare `}` at this character position.
    UnopenedPlaceholder { position: usize },
    /// A `[` (reserved syntax) at this character position.
    UnclosedBracket { position: usize },
    /// A `]` (reserved syntax) at this character position.
    UnopenedBracket { position: usize },
    /// A placeholder name referenced twice in one pattern.
    DuplicatePlaceholder { name: String },
}

/// The mathematical shape of a pattern error.
pub enum PatternErrorView {
    NestedPlaceholder,
    UnclosedPlaceholder,
    EmptyPlaceholder,
    UnopenedPlaceholder(int),
    UnclosedBracket(int),
    UnopenedBracket(int),
    DuplicatePlaceholder(Seq<char>),
}

impl View for PatternError {
    type V = PatternErrorView;

    open spec fn view(&self) -> PatternErrorView {
        match self {
            PatternError::NestedPlaceholder => PatternErrorView::NestedPlaceholder,
            PatternError::UnclosedPlaceholder => PatternErrorView::UnclosedPlaceholder,
            PatternError::EmptyPlaceholder => PatternErrorView::EmptyPlaceholder,
            PatternError::UnopenedPlaceholder { position } => PatternErrorView::UnopenedPlaceholder(
                *position as int,
            ),
            PatternError::UnclosedBracket { position } => PatternErrorView::UnclosedBracket(
                *position as int,
            ),
            PatternError::UnopenedBracket { position } => PatternErrorView::UnopenedBracket(
                *position as int,
            ),
            PatternError::DuplicatePlaceholder { name } => PatternErrorView::DuplicatePlaceholder(
                name@,
            ),
        }
    }
}

/// The rendered message of a pattern error.
pub open spec fn pattern_error_message(e: PatternErrorView) -> Seq<char> {
    match e {
        PatternErrorView::NestedPlaceholder => "Nested placeholder"@,
        PatternErrorView::UnclosedPlaceholder => "Unclosed placeholder"@,
        PatternErrorView::EmptyPlaceholder => "Empty placeholder"@,
        PatternErrorView::UnopenedPlaceholder(p) => "Unopened placeholder at position "@
            + crate::text::spec_decimal(p as nat),
        PatternErrorView::UnclosedBracket(p) => "Unclosed bracket at position "@
            + crate::text::spec_decimal(p as nat),
        PatternErrorView::UnopenedBracket(p) => "Unopened bracket at position "@
            + crate::text::spec_decimal(p as nat),
        PatternErrorView::DuplicatePlaceholder(name) => "Duplicate placeholder {"@ + name + "}"@,
    }
}

impl PatternError {
    /// The human-readable text of this error.
    pub fn message(&self) -> (r: String)
        ensures
            r@ == pattern_error_message(self@),
    {
        match self {
            PatternError::NestedPlaceholder => "Nested placeholder".to_owned(),
            PatternError::UnclosedPlaceholder => "Unclosed placeholder".to_owned(),
            PatternError::EmptyPlaceholder => "Empty placeholder".to_owned(),
            PatternError::UnopenedPlaceholder { position } => {
                let mut r = "Unopened placeholder at position ".to_owned();
                r.append(usize_to_string(*position).as_str());
                r
            },
            PatternError::UnclosedBracket { position } => {
                let mut r = "Unclosed bracket at position ".to_owned();
                r.append(usize_to_string(*position).as_str());
                r
            },
            PatternError::UnopenedBracket { position } => {
                let mut r = "Unopened bracket at position ".to_owned();
                r.append(usize_to_string(*position).as_str());
                r
            },
            PatternError::DuplicatePlaceholder { name } => {
                let mut r = "Duplicate placeholder {".to_owned();
                r.append(name.as_str());
                r.append("}");
                r
            },
        }
    }
}

/// Characters with a structural meaning at the top level of a pattern.
pub open spec fn is_special(c: char) -> bool {
    c == '{' || c == '}' || c == '[' || c == ']'
}

/// The first position at or after `i` holding `{` or `}`, or the
/// length of `s` if there is none: where an open placeholder ends.
pub open spec fn scan_brace(s: Seq<char>, i: int) -> int
    decreases s.len() - i when 0 <= i <= s.len()
{
    if i >= s.len() {
        i
    } else if s[i] == '{' || s[i] == '}' {
        i
    } else {
        scan_brace(s, i + 1)
    }
}

/// The first position at or after `i` holding a special character, or
/// the length of `s`: where a literal run ends.
pub open spec fn literal_end(s: Seq<char>, i: int) -> int
    decreases s.len() - i when 0 <= i <= s.len()
{
    if i >= s.len() {
        i
    } else if is_special(s[i]) {
        i
    } else {
        literal_end(s, i + 1)
    }
}

pub proof fn lemma_scan_brace(s: Seq<char>, i: int)
    requires
        0 <= i <= s.len(),
    ensures
        i <= scan_brace(s, i) <= s.len(),
        scan_brace(s, i) < s.len() ==> (s[scan_brace(s, i)] == '{' || s[scan_brace(s, i)] == '}'),
        forall|k: int| i <= k < scan_brace(s, i) ==> !(s[k] == '{' || s[k] == '}'),
    decreases s.len() - i,
{
    if i < s.len() && !(s[i] == '{' || s[i] == '}') {
        lemma_scan_brace(s, i + 1);
    }
}

pub proof fn lemma_literal_end(s: Seq<char>, i: int)
    requires
        0 <= i <= s.len(),
    ensures
        i <= literal_end(s, i) <= s.len(),
        literal_end(s, i) < s.len() ==> is_special(s[literal_end(s, i)]),
        forall|k: int| i <= k < literal_end(s, i) ==> !is_special(s[k]),
    decreases s.len() - i,
{
    if i < s.len() && !is_special(s[i]) {
        lemma_literal_end(s, i + 1);
    }
}

/// Tokenization of `s` from position `i` on: the token list, or the
/// first syntax error in scanning order.
pub open spec fn tokenize_from(s: Seq<char>, i: int) -> Result<Seq<TokenView>, PatternErrorView>
    decreases s.len() - i when 0 <= i <= s.len() via tokenize_from_dec
{
    if i >= s.len() {
        Ok(Seq::empty())
    } else if s[i] == '{' {
        let j = scan_brace(s, i + 1);
        if j >= s.len() {
            Err(PatternErrorView::UnclosedPlaceholder)
        } else if s[j] == '{' {
            Err(PatternErrorView::NestedPlaceholder)
        } else if j == i + 1 {
            Err(PatternErrorView::EmptyPlaceholder)
        } else {
            match tokenize_from(s, j + 1) {
                Ok(rest) => Ok(seq![TokenView::Ph(s.subrange(i + 1, j))] + rest),
                Err(e) => Err(e),
            }
        }
    } else if s[i] == '}' {
        Err(PatternErrorView::UnopenedPlaceholder(i))
    } else if s[i] == '[' {
        Err(PatternErrorView::UnclosedBracket(i))
    } else if s[i] == ']' {
        Err(PatternErrorView::UnopenedBracket(i))
    } else {
        let j = literal_end(s, i);
        match tokenize_from(s, j) {
            Ok(rest) => Ok(seq![TokenView::Lit(s.subrange(i, j))] + rest),
            Err(e) => Err(e),
        }
    }
}

#[via_fn]
proof fn tokenize_from_dec(s: Seq<char>, i: int) {
    if 0 <= i && i < s.len() {
        if s[i] == '{' {
            lemma_scan_brace(s, i + 1);
        } else if !is_special(s[i]) {
            lemma_literal_end(s, i);
            assert(literal_end(s, i) > i);
        }
    }
}

/// Tokenization of the whole pattern.
pub open spec fn tokenize(s: Seq<char>) -> Result<Seq<TokenView>, PatternErrorView> {
    tokenize_from(s, 0)
}

/// The tokenizer, from position `i` of `s` on.
fn tokenize_exec(s: &str, i: usize, n: usize) -> (r: Result<Vec<Token>, PatternError>)
    requires
        n == s@.len(),
        i <= n,
    ensures
        match r {
            Ok(v) => tokenize_from(s@, i as int) == Ok::<_, PatternErrorView>(tokens_view(v@)),
            Err(e) => tokenize_from(s@, i as int) == Err::<Seq<TokenView>, _>(e@),
        },
    decreases n - i,
{
    if i >= n {
        let v: Vec<Token> = Vec::new();
        assert(tokens_view(v@) =~= Seq::<TokenView>::empty());
        return Ok(v);
    }
    let c = s.get_char(i);
    if c == '{' {
        // scan for the matching close brace
        let mut j: usize = i + 1;
        loop
            invariant
                n == s@.len(),
                i + 1 <= j <= n,
                forall|k: int| i + 1 <= k < j ==> !(s@[k] == '{' || s@[k] == '}'),
            ensures
                n == s@.len(),
                i + 1 <= j <= n,
                forall|k: int| i + 1 <= k < j ==> !(s@[k] == '{' || s@[k] == '}'),
                j == n || s@[j as int] == '{' || s@[j as int] == '}',
            decreases n - j,
        {
            if j >= n {
                break;
            }
            let cj = s.get_char(j);
            if cj == '{' || cj == '}' {
                break;
            }
            j = j + 1;
        }
        proof {
            lemma_scan_brace(s@, i + 1);
            if scan_brace(s@, i + 1) < j {
                assert(!(s@[scan_brace(s@, i + 1)] == '{' || s@[scan_brace(s@, i + 1)] == '}'));
            }
            if scan_brace(s@, i + 1) > j {
                assert(j < s@.len());
                assert(!(s@[j as int] == '{' || s@[j as int] == '}'));
            }
            assert(scan_brace(s@, i + 1) == j as int);
        }
        if j >= n {
            return Err(PatternError::UnclosedPlaceholder);
        }
        if s.get_char(j) == '{' {
            return Err(PatternError::NestedPlaceholder);
        }
        if j == i + 1 {
            return Err(PatternError::EmptyPlaceholder);
        }
        let name: String = s.substring_char(i + 1, j).to_owned();
        match tokenize_exec(s, j + 1, n) {
            Ok(mut rest) => {
                rest.insert(0, Token::Placeholder(Placeholder(name)));
                proof {
                    let spec_rest = tokenize_from(s@, j + 1)->Ok_0;
                    assert(tokens_view(rest@) =~= seq![TokenView::Ph(s@.subrange(i + 1, j as int))]
                        + spec_rest);
                }
                Ok(rest)
            },
            Err(e) => Err(e),
        }
    } else if c == '}' {
        Err(PatternError::UnopenedPlaceholder { position: i })
    } else if c == '[' {
        Err(PatternError::UnclosedBracket { position: i })
    } else if c == ']' {
        Err(PatternError::UnopenedBracket { position: i })
    } else {
        // scan to the end of the literal run
        let mut j: usize = i;
        loop
            invariant
                n == s@.len(),
                i <= j <= n,
                forall|k: int| i <= k < j ==> !is_special(s@[k]),
            ensures
                n == s@.len(),
                i <= j <= n,
                forall|k: int| i <= k < j ==> !is_special(s@[k]),
                j == n || is_special(s@[j as int]),
            decreases n - j,
        {
            if j >= n {
                break;
            }
            let cj = s.get_char(j);
            if cj == '{' || cj == '}' || cj == '[' || cj == ']' {
                break;
            }
            j = j + 1;
        }
        proof {
            lemma_literal_end(s@, i as int);
            if literal_end(s@, i as int) < j {
                assert(!is_special(s@[literal_end(s@, i as int)]));
            }
            if literal_end(s@, i as int) > j {
                assert(j < s@.len());
                assert(!is_special(s@[j as int]));
            }
            assert(literal_end(s@, i as int) == j as int);
            assert(j > i);
        }
        let lit: String = s.substring_char(i, j).to_owned();
        match tokenize_exec(s, j, n) {
            Ok(mut rest) => {
                rest.insert(0, Token::Literal(lit));
                proof {
                    let spec_rest = tokenize_from(s@, j as int)->Ok_0;
                    assert(tokens_view(rest@) =~= seq![TokenView::Lit(s@.subrange(i as int, j as int))]
                        + spec_rest);
                }
                Ok(rest)
            },
            Err(e) => Err(e),
        }
    }
}

/// Parses a normalized pattern string into its token sequence.
/// Bracket characters are reserved syntax and rejected at the top
/// level only: inside an open placeholder every character except a
/// brace, brackets included, counts as part of the name.
pub fn parse_refactor_pattern(pattern: &str) -> (r: Result<Vec<Token>, PatternError>)
    ensures
        match r {
            Ok(v) => tokenize(pattern@) == Ok::<_, PatternErrorView>(tokens_view(v@)),
            Err(e) => tokenize(pattern@) == Err::<Seq<TokenView>, _>(e@),
        },
{
    let n: usize = pattern.unicode_len();
    tokenize_exec(pattern, 0, n)
}

/// The mandatory document suffix.
pub open spec fn md_suffix() -> Seq<char> {
    seq!['.', 'm', 'd']
}

/// The normalized form of a raw pattern: unchanged if it already
/// mentions `.md` anywhere, else with `.md` appended.
pub open spec fn normalize_spec(raw: Seq<char>) -> Seq<char> {
    if has_substring(raw, md_suffix()) {
        raw
    } else {
        raw + md_suffix()
    }
}

/// Appends `.md` to a pattern unless it already contains it.
pub fn normalize_pattern(pattern: &str) -> (r: String)
    ensures
        r@ == normalize_spec(pattern@),
{
    proof {
        reveal_strlit(".md");
        assert(".md"@ =~= md_suffix());
    }
    if crate::text::contains_substring(pattern, ".md") {
        pattern.to_owned()
    } else {
        let mut r = pattern.to_owned();
        r.append(".md");
        r
    }
}

/// The names of a placeholder list.
pub open spec fn names_view(phs: Seq<Placeholder>) -> Seq<Seq<char>> {
    phs.map(|i: int, p: Placeholder| p@)
}

/// The placeholder names referenced by a token sequence, in occurrence
/// order.
pub open spec fn ph_names(toks: Seq<TokenView>) -> Seq<Seq<char>>
    decreases toks.len(),
{
    if toks.len() == 0 {
        Seq::empty()
    } else {
        let pre = ph_names(toks.drop_last());
        match toks.last() {
            TokenView::Lit(_) => pre,
            TokenView::Ph(n) => pre.push(n),
        }
    }
}

/// No name occurs twice.
pub open spec fn unique_names(names: Seq<Seq<char>>) -> bool {
    forall|i: int, j: int| 0 <= i < j < names.len() ==> names[i] != names[j]
}

/// Whether `names[j]` already occurred before position `j`.
pub open spec fn dup_at(names: Seq<Seq<char>>, j: int) -> bool {
    exists|k: int| 0 <= k < j && names[k] == names[j]
}

/// The first name to occur a second time, scanning left to right.
pub open spec fn first_dup(names: Seq<Seq<char>>) -> Option<Seq<char>>
    decreases names.len(),
{
    if names.len() == 0 {
        None
    } else {
        match first_dup(names.drop_last()) {
            Some(n) => Some(n),
            None => if dup_at(names, names.len() - 1) {
                Some(names.last())
            } else {
                None
            },
        }
    }
}

/// Placeholder names distribute over token concatenation.
pub proof fn lemma_ph_names_concat(t1: Seq<TokenView>, t2: Seq<TokenView>)
    ensures
        ph_names(t1 + t2) == ph_names(t1) + ph_names(t2),
    decreases t2.len(),
{
    if t2.len() == 0 {
        assert(t1 + t2 =~= t1);
        assert(ph_names(t1) + ph_names(t2) =~= ph_names(t1));
    } else {
        lemma_ph_names_concat(t1, t2.drop_last());
        assert((t1 + t2).drop_last() =~= t1 + t2.drop_last());
        assert((t1 + t2).last() == t2.last());
        match t2.last() {
            TokenView::Lit(_) => {
                assert(ph_names(t1) + ph_names(t2) =~= ph_names(t1) + ph_names(t2.drop_last()));
            },
            TokenView::Ph(n) => {
                assert(ph_names(t1) + ph_names(t2) =~= (ph_names(t1) + ph_names(
                    t2.drop_last(),
                )).push(n));
            },
        }
    }
}

/// Placeholder names unfold from the front of a token sequence.
pub proof fn lemma_ph_names_front(toks: Seq<TokenView>)
    requires
        toks.len() > 0,
    ensures
        ph_names(toks) == match toks[0] {
            TokenView::Lit(_) => ph_names(toks.drop_first()),
            TokenView::Ph(n) => seq![n] + ph_names(toks.drop_first()),
        },
{
    assert(toks =~= seq![toks[0]] + toks.drop_first());
    lemma_ph_names_concat(seq![toks[0]], toks.drop_first());
    assert(seq![toks[0]].drop_last() =~= Seq::<TokenView>::empty());
    assert(ph_names(Seq::<TokenView>::empty()) =~= Seq::<Seq<char>>::empty());
    match toks[0] {
        TokenView::Lit(_) => {
            assert(ph_names(seq![toks[0]]) =~= Seq::<Seq<char>>::empty());
            assert(ph_names(seq![toks[0]]) + ph_names(toks.drop_first()) =~= ph_names(
                toks.drop_first(),
            ));
        },
        TokenView::Ph(n) => {
            assert(ph_names(seq![toks[0]]) =~= seq![n]);
        },
    }
}

/// A duplicate found in a prefix stays the first duplicate of any
/// extension.
pub proof fn lemma_first_dup_prefix(a: Seq<Seq<char>>, b: Seq<Seq<char>>)
    requires
        first_dup(a) is Some,
    ensures
        first_dup(a + b) == first_dup(a),
    decreases b.len(),
{
    if b.len() == 0 {
        assert(a + b =~= a);
    } else {
        lemma_first_dup_prefix(a, b.drop_last());
        assert((a + b).drop_last() =~= a + b.drop_last());
    }
}

pub proof fn lemma_first_dup_none_iff_unique(names: Seq<Seq<char>>)
    ensures
        first_dup(names) is None <==> unique_names(names),
    decreases names.len(),
{
    if names.len() > 0 {
        lemma_first_dup_none_iff_unique(names.drop_last());
        if unique_names(names) {
            assert(unique_names(names.drop_last())) by {
                assert(forall|i: int, j: int|
                    0 <= i < j < names.len() - 1 ==> names.drop_last()[i] == names[i]
                        && names.drop_last()[j] == names[j]);
            }
            assert(!dup_at(names, names.len() - 1));
        }
        if first_dup(names) is None {
            assert(unique_names(names.drop_last()));
            assert(!dup_at(names, names.len() - 1));
            assert forall|i: int, j: int| 0 <= i < j < names.len() implies names[i] != names[j] by {
                if j < names.len() - 1 {
                    assert(names.drop_last()[i] == names[i]);
                    assert(names.drop_last()[j] == names[j]);
                } else {
                    assert(!dup_at(names, j));
                }
            }
        }
    }
}

/// Whether `name` occurs in the placeholder list.
pub(crate) fn placeholders_contain(phs: &Vec<Placeholder>, name: &str) -> (r: bool)
    ensures
        r == names_view(phs@).contains(name@),
{
    let n: usize = phs.len();
    let mut i: usize = 0;
    while i < n
        invariant
            n == phs@.len(),
            i <= n,
            forall|k: int| 0 <= k < i ==> names_view(phs@)[k] != name@,
        decreases n - i,
    {
        if crate::text::str_eq(phs[i].name(), name) {
            assert(names_view(phs@)[i as int] == name@);
            return true;
        }
        i = i + 1;
    }
    assert(forall|k: int| 0 <= k < phs@.len() ==> names_view(phs@)[k] != name@);
    false
}

/// A compiled pattern: the raw input, its normalized form, the token
/// sequence, and the derived duplicate-free placeholder list in
/// occurrence order.
#[derive(Debug)]
pub struct RefactorPattern {
    pub raw: String,
    pub normalized: String,
    pub tokens: Vec<Token>,
    pub placeholders: Vec<Placeholder>,
}

impl RefactorPattern {
    /// Well-formedness: the parts agree with the raw input.
    pub open spec fn wf(&self) -> bool {
        &&& self.normalized@ == normalize_spec(self.raw@)
        &&& tokenize(self.normalized@) == Ok::<_, PatternErrorView>(tokens_view(self.tokens@))
        &&& names_view(self.placeholders@) == ph_names(tokens_view(self.tokens@))
        &&& unique_names(names_view(self.placeholders@))
    }

    /// The token views of this pattern.
    pub open spec fn toks(&self) -> Seq<TokenView> {
        tokens_view(self.tokens@)
    }

    /// The placeholder names of this pattern, in occurrence order.
    pub open spec fn names(&self) -> Seq<Seq<char>> {
        names_view(self.placeholders@)
    }

    /// Compiles a raw pattern string: normalizes it, tokenizes it, and
    /// rejects duplicate placeholders.
    pub fn new(raw: &str) -> (r: Result<Self, PatternError>)
        ensures
            match r {
                Ok(p) => {
                    &&& p.wf()
                    &&& p.raw@ == raw@
                    &&& tokenize(normalize_spec(raw@)) == Ok::<_, PatternErrorView>(p.toks())
                },
                Err(e) => match tokenize(normalize_spec(raw@)) {
                    Ok(toks) => first_dup(ph_names(toks)) is Some && e@
                        == PatternErrorView::DuplicatePlaceholder(first_dup(ph_names(toks))->Some_0),
                    Err(te) => e@ == te,
                },
            },
    {
        let normalized = normalize_pattern(raw);
        let tokens = match parse_refactor_pattern(normalized.as_str()) {
            Ok(tokens) => tokens,
            Err(e) => {
                return Err(e);
            },
        };
        let n: usize = tokens.len();
        let mut placeholders: Vec<Placeholder> = Vec::new();
        let mut i: usize = 0;
        while i < n
        invariant
            n == tokens@.len(),
            i <= n,
            tokenize(normalize_spec(raw@)) == Ok::<_, PatternErrorView>(tokens_view(tokens@)),
            names_view(placeholders@) =~= ph_names(tokens_view(tokens@.take(i as int))),
            first_dup(ph_names(tokens_view(tokens@.take(i as int)))) is None,
        decreases n - i,
        {
            proof {
                assert(tokens_view(tokens@.take(i + 1)).drop_last() =~= tokens_view(
                    tokens@.take(i as int),
                ));
                assert(tokens_view(tokens@.take(i + 1)).last() == tokens@[i as int]@);
            }
            match &tokens[i] {
                Token::Literal(_) => {
                    proof {
                        assert(ph_names(tokens_view(tokens@.take(i + 1))) =~= ph_names(
                            tokens_view(tokens@.take(i as int)),
                        ));
                    }
                },
                Token::Placeholder(p) => {
                    let ghost pre_names = ph_names(tokens_view(tokens@.take(i as int)));
                    proof {
                        assert(ph_names(tokens_view(tokens@.take(i + 1))) =~= pre_names.push(p@));
                    }
                    if placeholders_contain(&placeholders, p.name()) {
                        proof {
                            let all = ph_names(tokens_view(tokens@.take(i + 1)));
                            assert(all.drop_last() =~= pre_names);
                            assert(dup_at(all, all.len() - 1));
                            assert(first_dup(all) == Some(p@));
                            // the prefix's duplicate is the first duplicate of
                            // the whole pattern
                            assert(tokens@ =~= tokens@.take(i + 1) + tokens@.skip(i + 1));
                            assert(tokens_view(tokens@) =~= tokens_view(tokens@.take(i + 1))
                                + tokens_view(tokens@.skip(i + 1)));
                            lemma_ph_names_concat(
                                tokens_view(tokens@.take(i + 1)),
                                tokens_view(tokens@.skip(i + 1)),
                            );
                            lemma_first_dup_prefix(
                                all,
                                ph_names(tokens_view(tokens@.skip(i + 1))),
                            );
                        }
                        return Err(PatternError::DuplicatePlaceholder { name: p.name().to_owned() });
                    }
                    placeholders.push(p.duplicate());
                    proof {
                        let all = ph_names(tokens_view(tokens@.take(i + 1)));
                        assert(all.drop_last() =~= pre_names);
                        assert(!dup_at(all, all.len() - 1));
                    }
                },
            }
            i = i + 1;
        }
        proof {
            assert(tokens@.take(n as int) =~= tokens@);
            lemma_first_dup_none_iff_unique(names_view(placeholders@));
        }
        Ok(RefactorPattern { raw: raw.to_owned(), normalized, tokens, placeholders })
    }
}

} // verus!
