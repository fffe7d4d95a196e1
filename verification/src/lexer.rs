//! Tokens, source locations, and the single-pass scanner (`lex`).
//!
//! The scanner walks the input left to right with one character of
//! lookahead (used only to tell `*` from `**`), consumes greedy runs of
//! letters as identifiers, consults a fixed keyword table, and either
//! returns the whole token sequence or the first unrecognized character.

use vstd::prelude::*;

verus! {

/// A location in the text: 1-based line and column of a single character.
///
/// No character currently advances the line counter, so every location
/// produced by the scanner lies on line 1.
#[derive(Debug, Clone, Copy, PartialEq, Eq, Structural)]
pub struct Location {
    /// The number of the line, starting with 1.
    pub line: u64,
    /// The number of the column, starting with 1.
    pub column: u64,
}

/// Mathematical image of a [`Location`]: the same pair over `nat`.
pub struct LocationView {
    pub line: nat,
    pub column: nat,
}

impl View for Location {
    type V = LocationView;

    open spec fn view(&self) -> LocationView {
        LocationView { line: self.line as nat, column: self.column as nat }
    }
}

impl Location {
    /// Builds the location for the given 1-based line and column.
    pub fn new(line: u64, column: u64) -> (r: Location)
        ensures
            r.line == line,
            r.column == column,
    {
        Location { line, column }
    }
}

/// A classified unit of lexical text, with the data it carries.
#[derive(Debug, Clone)]
pub enum TokenType {
    /// Plus sign.
    Plus,
    /// Minus sign.
    Minus,
    /// Asterisk / multiply sign.
    Star,
    /// Two stars in a row.
    StarStar,
    /// Single forward slash.
    Slash,
    /// Identifier; the matched text is in the string.
    Name(String),
    /// `if` keyword.
    If,
    /// `else` keyword.
    Else,
    /// The code has been indented one level (reserved; never produced).
    Indent,
    /// The code has been dedented one level (reserved; never produced).
    Dedent,
}

/// Mathematical image of a [`TokenType`]: identifier text as a `Seq<char>`.
#[verifier::ext_equal]
pub enum TokenTypeView {
    Plus,
    Minus,
    Star,
    StarStar,
    Slash,
    Name(Seq<char>),
    If,
    Else,
    Indent,
    Dedent,
}

impl View for TokenType {
    type V = TokenTypeView;

    open spec fn view(&self) -> TokenTypeView {
        match self {
            TokenType::Plus => TokenTypeView::Plus,
            TokenType::Minus => TokenTypeView::Minus,
            TokenType::Star => TokenTypeView::Star,
            TokenType::StarStar => TokenTypeView::StarStar,
            TokenType::Slash => TokenTypeView::Slash,
            TokenType::Name(s) => TokenTypeView::Name(s@),
            TokenType::If => TokenTypeView::If,
            TokenType::Else => TokenTypeView::Else,
            TokenType::Indent => TokenTypeView::Indent,
            TokenType::Dedent => TokenTypeView::Dedent,
        }
    }
}

impl PartialEq for TokenType {
    /// Two token types are equal when they are the same variant and any
    /// carried identifier text agrees.
    fn eq(&self, other: &TokenType) -> (r: bool) {
        match (self, other) {
            (TokenType::Plus, TokenType::Plus) => true,
            (TokenType::Minus, TokenType::Minus) => true,
            (TokenType::Star, TokenType::Star) => true,
            (TokenType::StarStar, TokenType::StarStar) => true,
            (TokenType::Slash, TokenType::Slash) => true,
            (TokenType::Name(a), TokenType::Name(b)) => a.eq(b),
            (TokenType::If, TokenType::If) => true,
            (TokenType::Else, TokenType::Else) => true,
            (TokenType::Indent, TokenType::Indent) => true,
            (TokenType::Dedent, TokenType::Dedent) => true,
            _ => false,
        }
    }
}

impl vstd::std_specs::cmp::PartialEqSpecImpl for TokenType {
    open spec fn obeys_eq_spec() -> bool {
        true
    }

    open spec fn eq_spec(&self, other: &TokenType) -> bool {
        self@ == other@
    }
}

/// A lexed token together with its position in the text.
#[derive(Debug)]
pub struct Token {
    /// The location of the token's first character.
    pub start: Location,
    /// The location of the token's last character.
    pub end: Location,
    /// The kind of the token, with the data inside.
    pub token_type: TokenType,
}

/// Mathematical image of a [`Token`].
#[verifier::ext_equal]
pub struct TokenView {
    pub start: LocationView,
    pub end: LocationView,
    pub token_type: TokenTypeView,
}

impl View for Token {
    type V = TokenView;

    open spec fn view(&self) -> TokenView {
        TokenView { start: self.start@, end: self.end@, token_type: self.token_type@ }
    }
}

impl Token {
    /// Says whether the token is of the given type.
    pub fn is_type(&self, other: &TokenType) -> (r: bool)
        ensures
            r == (self.token_type@ == other@),
    {
        other == &self.token_type
    }
}

/// An error describing why scanning failed.
#[derive(Debug)]
pub enum LexError {
    /// The scanner met a character it does not recognize, at the given span.
    UnexpectedToken(char, Location, Location),
}

/// Mathematical image of a [`LexError`].
#[verifier::ext_equal]
pub enum LexErrorView {
    UnexpectedToken(char, LocationView, LocationView),
}

impl View for LexError {
    type V = LexErrorView;

    open spec fn view(&self) -> LexErrorView {
        match self {
            LexError::UnexpectedToken(c, s, e) => LexErrorView::UnexpectedToken(*c, s@, e@),
        }
    }
}

/// Alias for what the scanner returns.
pub type LexResult = Result<Vec<Token>, LexError>;

/// Says whether the scanner treats `c` as a letter: an ASCII alphabetic
/// character. A greedy run of letters forms an identifier or keyword.
pub open spec fn is_alpha(c: char) -> bool {
    ('a' <= c && c <= 'z') || ('A' <= c && c <= 'Z')
}

/// Executable form of [`is_alpha`].
pub fn is_alpha_char(c: char) -> (r: bool)
    ensures
        r == is_alpha(c),
{
    ('a' <= c && c <= 'z') || ('A' <= c && c <= 'Z')
}

/// The characters the scanner recognizes: the four operator characters,
/// the space it skips, and the letters that start identifier runs.
pub open spec fn is_recognized(c: char) -> bool {
    c == '+' || c == '-' || c == '*' || c == '/' || c == ' ' || is_alpha(c)
}

/// The keyword table as a mathematical function: the exact spellings `if`
/// and `else` map to their keyword kinds; any other spelling stays a name.
pub open spec fn spec_keyword(s: Seq<char>) -> TokenTypeView {
    if s == seq!['i', 'f'] {
        TokenTypeView::If
    } else if s == seq!['e', 'l', 's', 'e'] {
        TokenTypeView::Else
    } else {
        TokenTypeView::Name(s)
    }
}

/// The length of the greedy identifier run at the head of `s`: the number
/// of consecutive letters before the first non-letter (or the end).
pub open spec fn alpha_run_len(s: Seq<char>) -> nat
    decreases s.len(),
{
    if s.len() > 0 && is_alpha(s[0]) {
        (1 + alpha_run_len(s.skip(1))) as nat
    } else {
        0
    }
}

/// The greedy run never reaches past the end of the text, consists of
/// letters only, and stops exactly at the first non-letter.
pub proof fn lemma_alpha_run_len(s: Seq<char>)
    ensures
        alpha_run_len(s) <= s.len(),
        forall|i: int| 0 <= i < alpha_run_len(s) ==> is_alpha(#[trigger] s[i]),
        alpha_run_len(s) < s.len() ==> !is_alpha(s[alpha_run_len(s) as int]),
    decreases s.len(),
{
    if s.len() > 0 && is_alpha(s[0]) {
        lemma_alpha_run_len(s.skip(1));
        assert forall|i: int| 0 <= i < alpha_run_len(s) implies is_alpha(#[trigger] s[i]) by {
            if i > 0 {
                assert(is_alpha(s.skip(1)[i - 1]));
                assert(s.skip(1)[i - 1] == s[i]);
            }
        }
        if alpha_run_len(s) < s.len() {
            assert(s[alpha_run_len(s) as int] == s.skip(1)[alpha_run_len(s.skip(1)) as int]);
        }
    }
}

/// A stretch of letters that ends at the end of the text or at a
/// non-letter is the greedy run: its length is [`alpha_run_len`].
pub proof fn lemma_alpha_run_len_is(s: Seq<char>, m: int)
    requires
        0 <= m <= s.len(),
        forall|k: int| 0 <= k < m ==> is_alpha(#[trigger] s[k]),
        m < s.len() ==> !is_alpha(s[m]),
    ensures
        alpha_run_len(s) == m,
    decreases s.len(),
{
    if s.len() > 0 && is_alpha(s[0]) {
        assert(m > 0);
        lemma_alpha_run_len_is(s.skip(1), m - 1);
    }
}

/// The location on line 1 at the given 1-based column.
pub open spec fn spec_loc(col: nat) -> LocationView {
    LocationView { line: 1, column: col }
}

/// A token of the given kind spanning `span` characters, the first of
/// which sits at column `col` of line 1.
pub open spec fn spec_token(kind: TokenTypeView, col: nat, span: nat) -> TokenView {
    TokenView { start: spec_loc(col), end: spec_loc((col + span - 1) as nat), token_type: kind }
}

/// Prepends one token to the outcome of scanning the rest of the text; an
/// error in the rest discards everything.
pub open spec fn spec_cons(t: TokenView, rest: Result<Seq<TokenView>, LexErrorView>) -> Result<
    Seq<TokenView>,
    LexErrorView,
> {
    match rest {
        Ok(ts) => Ok(seq![t] + ts),
        Err(e) => Err(e),
    }
}

/// What scanning the text `s` yields when its first character sits at
/// column `col` of line 1: the complete token sequence, or the first
/// unrecognized character with its location. The scan is single-pass and
/// left-to-right; one character of lookahead tells `*` from `**`; a greedy
/// run of letters becomes a keyword or a name; spaces are skipped.
pub open spec fn spec_lex(s: Seq<char>, col: nat) -> Result<Seq<TokenView>, LexErrorView>
    decreases s.len(),
    via spec_lex_decreases
{
    if s.len() == 0 {
        Ok(Seq::empty())
    } else {
        let c = s[0];
        if c == '+' {
            spec_cons(spec_token(TokenTypeView::Plus, col, 1), spec_lex(s.skip(1), col + 1))
        } else if c == '-' {
            spec_cons(spec_token(TokenTypeView::Minus, col, 1), spec_lex(s.skip(1), col + 1))
        } else if c == '*' {
            if s.len() >= 2 && s[1] == '*' {
                spec_cons(
                    spec_token(TokenTypeView::StarStar, col, 2),
                    spec_lex(s.skip(2), col + 2),
                )
            } else {
                spec_cons(spec_token(TokenTypeView::Star, col, 1), spec_lex(s.skip(1), col + 1))
            }
        } else if is_alpha(c) {
            let n = alpha_run_len(s);
            spec_cons(
                spec_token(spec_keyword(s.take(n as int)), col, n),
                spec_lex(s.skip(n as int), col + n),
            )
        } else if c == ' ' {
            spec_lex(s.skip(1), col + 1)
        } else if c == '/' {
            spec_cons(spec_token(TokenTypeView::Slash, col, 1), spec_lex(s.skip(1), col + 1))
        } else {
            Err(LexErrorView::UnexpectedToken(c, spec_loc(col), spec_loc(col)))
        }
    }
}

#[via_fn]
proof fn spec_lex_decreases(s: Seq<char>, col: nat) {
    if s.len() > 0 && is_alpha(s[0]) {
        lemma_alpha_run_len(s);
    }
}

/// The views of the tokens of `ts`, in order.
pub open spec fn token_views(ts: Seq<Token>) -> Seq<TokenView> {
    ts.map_values(|t: Token| t@)
}

/// Prepends already-scanned tokens to the outcome of scanning the rest of
/// the text; an error in the rest discards everything.
pub open spec fn spec_append(
    done: Seq<TokenView>,
    rest: Result<Seq<TokenView>, LexErrorView>,
) -> Result<Seq<TokenView>, LexErrorView> {
    match rest {
        Ok(ts) => Ok(done + ts),
        Err(e) => Err(e),
    }
}

proof fn lemma_token_views_push(ts: Seq<Token>, t: Token)
    ensures
        token_views(ts.push(t)) == token_views(ts).push(t@),
{
    assert(token_views(ts.push(t)) =~= token_views(ts).push(t@));
}

proof fn lemma_append_cons(
    done: Seq<TokenView>,
    t: TokenView,
    rest: Result<Seq<TokenView>, LexErrorView>,
)
    ensures
        spec_append(done, spec_cons(t, rest)) == spec_append(done.push(t), rest),
{
    match rest {
        Ok(ts) => {
            assert(done + (seq![t] + ts) =~= done.push(t) + ts);
        },
        Err(e) => {},
    }
}

proof fn lemma_skip_skip(s: Seq<char>, i: int, j: int)
    requires
        0 <= i,
        0 <= j,
        i + j <= s.len(),
    ensures
        s.skip(i).skip(j) == s.skip(i + j),
{
    assert(s.skip(i).skip(j) =~= s.skip(i + j));
}

/// The keyword table: turns the exact text of an identifier run into its
/// token type. Matching is exact and case-sensitive; any spelling other
/// than `if` and `else` stays a name carrying that spelling.
pub fn check_keyword(s: String) -> (r: TokenType)
    ensures
        r@ == spec_keyword(s@),
{
    let if_kw = String::from_str("if");
    let else_kw = String::from_str("else");
    proof {
        reveal_strlit("if");
        reveal_strlit("else");
        assert(if_kw@ =~= seq!['i', 'f']);
        assert(else_kw@ =~= seq!['e', 'l', 's', 'e']);
    }
    if s.eq(&if_kw) {
        TokenType::If
    } else if s.eq(&else_kw) {
        TokenType::Else
    } else {
        TokenType::Name(s)
    }
}

/// Greedily consumes the run of letters that starts at character index
/// `start` of `string`, and returns the run's text. The character that
/// stops the run is not consumed: the caller advances past the run by the
/// returned text's length and scans that character itself.
pub fn take_until(string: &str, start: usize) -> (data: String)
    requires
        start <= string@.len(),
    ensures
        data@ == string@.skip(start as int).take(
            alpha_run_len(string@.skip(start as int)) as int,
        ),
        data@.len() == alpha_run_len(string@.skip(start as int)),
{
    let n: usize = string.unicode_len();
    let mut j: usize = start;
    while j < n
        invariant
            start <= j <= n,
            n == string@.len(),
            forall|k: int| start <= k < j ==> is_alpha(#[trigger] string@[k]),
        ensures
            start <= j <= n,
            n == string@.len(),
            forall|k: int| start <= k < j ==> is_alpha(#[trigger] string@[k]),
            j == n || !is_alpha(string@[j as int]),
        decreases n - j,
    {
        let c = string.get_char(j);
        if !is_alpha_char(c) {
            break ;
        }
        j += 1;
    }
    proof {
        let t = string@.skip(start as int);
        assert forall|k: int| 0 <= k < j - start implies is_alpha(#[trigger] t[k]) by {
            assert(t[k] == string@[start + k]);
        }
        if j - start < t.len() {
            assert(t[j - start] == string@[j as int]);
        }
        lemma_alpha_run_len_is(t, j - start);
        assert(string@.subrange(start as int, j as int) =~= t.take(j - start));
    }
    let sub = string.substring_char(start, j);
    String::from_str(sub)
}

/// Appends to `result` a token of the given kind spanning `span`
/// characters, the first of which sits at 1-based column `col` of line 1.
fn push_token(result: &mut Vec<Token>, kind: TokenType, col: u64, span: u64)
    requires
        1 <= span,
        col + span - 1 <= u64::MAX,
    ensures
        token_views(final(result)@) == token_views(old(result)@).push(
            spec_token(kind@, col as nat, span as nat),
        ),
{
    let start = Location::new(1, col);
    let end = Location::new(1, col + (span - 1));
    let ghost kv = kind@;
    let tok = Token { start, end, token_type: kind };
    proof {
        lemma_token_views_push(result@, tok);
        assert(tok@ == spec_token(kv, col as nat, span as nat));
    }
    result.push(tok);
}

/// Scans the whole of `string`, left to right and in a single pass, into
/// the token sequence that [`spec_lex`] ascribes to it, or returns the
/// first unrecognized character with its 1-based location. The empty text
/// yields the empty sequence; on an error no tokens are handed back.
pub fn lex(string: &str) -> (r: LexResult)
    ensures
        (match r {
            Ok(tokens) => spec_lex(string@, 1) == Ok::<Seq<TokenView>, LexErrorView>(
                token_views(tokens@),
            ),
            Err(e) => spec_lex(string@, 1) == Err::<Seq<TokenView>, LexErrorView>(e@),
        }),
{
    let n: usize = string.unicode_len();
    let mut result: Vec<Token> = Vec::new();
    let mut i: usize = 0;
    proof {
        assert(string@.skip(0) =~= string@);
        assert(token_views(result@) =~= Seq::<TokenView>::empty());
        if spec_lex(string@, 1) is Ok {
            assert(Seq::<TokenView>::empty() + spec_lex(string@, 1)->Ok_0 =~= spec_lex(
                string@,
                1,
            )->Ok_0);
        }
    }
    while i < n
        invariant
            n == string@.len(),
            i <= n,
            spec_lex(string@, 1) == spec_append(
                token_views(result@),
                spec_lex(string@.skip(i as int), (i + 1) as nat),
            ),
        decreases n - i,
    {
        let ghost t = string@.skip(i as int);
        let ghost col = (i + 1) as nat;
        let ghost done = token_views(result@);
        proof {
            assert(t[0] == string@[i as int]);
            if i + 1 < n {
                assert(t[1] == string@[i + 1]);
            }
        }
        let c = string.get_char(i);
        if c == '+' {
            push_token(&mut result, TokenType::Plus, (i as u64) + 1, 1);
            proof {
                lemma_skip_skip(string@, i as int, 1);
                lemma_append_cons(done, spec_token(TokenTypeView::Plus, col, 1), spec_lex(t.skip(1), col + 1));
            }
            i += 1;
        } else if c == '-' {
            push_token(&mut result, TokenType::Minus, (i as u64) + 1, 1);
            proof {
                lemma_skip_skip(string@, i as int, 1);
                lemma_append_cons(done, spec_token(TokenTypeView::Minus, col, 1), spec_lex(t.skip(1), col + 1));
            }
            i += 1;
        } else if c == '*' {
            let mut two = false;
            if i + 1 < n {
                let c2 = string.get_char(i + 1);
                if c2 == '*' {
                    two = true;
                }
            }
            if two {
                push_token(&mut result, TokenType::StarStar, (i as u64) + 1, 2);
                proof {
                    lemma_skip_skip(string@, i as int, 2);
                    lemma_append_cons(done, spec_token(TokenTypeView::StarStar, col, 2), spec_lex(t.skip(2), col + 2));
                }
                i += 2;
            } else {
                push_token(&mut result, TokenType::Star, (i as u64) + 1, 1);
                proof {
                    lemma_skip_skip(string@, i as int, 1);
                    lemma_append_cons(done, spec_token(TokenTypeView::Star, col, 1), spec_lex(t.skip(1), col + 1));
                }
                i += 1;
            }
        } else if is_alpha_char(c) {
            let data = take_until(string, i);
            let ghost dv = data@;
            let len: usize = data.as_str().unicode_len();
            proof {
                lemma_alpha_run_len(t);
                assert(len == alpha_run_len(t));
                assert(alpha_run_len(t) >= 1);
            }
            let token_type = check_keyword(data);
            push_token(&mut result, token_type, (i as u64) + 1, len as u64);
            proof {
                lemma_skip_skip(string@, i as int, len as int);
                assert(t.take(alpha_run_len(t) as int) == dv);
                lemma_append_cons(
                    done,
                    spec_token(spec_keyword(t.take(alpha_run_len(t) as int)), col, alpha_run_len(t)),
                    spec_lex(t.skip(alpha_run_len(t) as int), col + alpha_run_len(t)),
                );
            }
            i += len;
        } else if c == ' ' {
            proof {
                lemma_skip_skip(string@, i as int, 1);
            }
            i += 1;
        } else if c == '/' {
            push_token(&mut result, TokenType::Slash, (i as u64) + 1, 1);
            proof {
                lemma_skip_skip(string@, i as int, 1);
                lemma_append_cons(done, spec_token(TokenTypeView::Slash, col, 1), spec_lex(t.skip(1), col + 1));
            }
            i += 1;
        } else {
            let loc = Location::new(1, (i as u64) + 1);
            return Err(LexError::UnexpectedToken(c, loc, loc));
        }
    }
    proof {
        assert(string@.skip(n as int) =~= Seq::<char>::empty());
        assert(token_views(result@) + Seq::<TokenView>::empty() =~= token_views(result@));
    }
    Ok(result)
}

} // verus!
