//! Laws of the scanner, proved once and for all texts: which texts scan
//! without error, where the scan stops when it fails, and what single
//! operators and runs of letters always yield.

use crate::lexer::{
    alpha_run_len, is_alpha, is_recognized, lemma_alpha_run_len, lemma_alpha_run_len_is,
    spec_append, spec_cons, spec_keyword, spec_lex, spec_loc, spec_token, LexErrorView,
    LocationView, TokenTypeView, TokenView,
};
use vstd::prelude::*;

verus! {

/// Says whether every character of `s` is one the scanner recognizes.
pub open spec fn all_recognized(s: Seq<char>) -> bool {
    forall|i: int| 0 <= i < s.len() ==> is_recognized(#[trigger] s[i])
}

/// The index of the first character of `s` that the scanner does not
/// recognize; meaningful only when there is one.
pub open spec fn first_unrecognized(s: Seq<char>) -> int
    decreases s.len(),
{
    if s.len() == 0 {
        0
    } else if !is_recognized(s[0]) {
        0
    } else {
        1 + first_unrecognized(s.skip(1))
    }
}

/// When some character of `s` is unrecognized, [`first_unrecognized`]
/// indeed points at the first such character.
pub proof fn lemma_first_unrecognized(s: Seq<char>)
    requires
        !all_recognized(s),
    ensures
        0 <= first_unrecognized(s) < s.len(),
        !is_recognized(s[first_unrecognized(s)]),
        forall|i: int| 0 <= i < first_unrecognized(s) ==> is_recognized(#[trigger] s[i]),
    decreases s.len(),
{
    if s.len() > 0 && is_recognized(s[0]) {
        assert(!all_recognized(s.skip(1))) by {
            let j = choose|i: int| 0 <= i < s.len() && !is_recognized(s[i]);
            assert(s.skip(1)[j - 1] == s[j]);
        }
        lemma_first_unrecognized(s.skip(1));
        let k = first_unrecognized(s);
        assert(s[k] == s.skip(1)[k - 1]);
        assert forall|i: int| 0 <= i < k implies is_recognized(#[trigger] s[i]) by {
            if i > 0 {
                assert(s[i] == s.skip(1)[i - 1]);
            }
        }
    }
}

proof fn lemma_first_unrecognized_skip(s: Seq<char>, m: int)
    requires
        0 <= m <= s.len(),
        forall|i: int| 0 <= i < m ==> is_recognized(#[trigger] s[i]),
    ensures
        first_unrecognized(s) == m + first_unrecognized(s.skip(m)),
    decreases m,
{
    if m > 0 {
        assert forall|i: int| 0 <= i < m - 1 implies is_recognized(#[trigger] s.skip(1)[i]) by {
            assert(s.skip(1)[i] == s[i + 1]);
        }
        lemma_first_unrecognized_skip(s.skip(1), m - 1);
        assert(s.skip(1).skip(m - 1) =~= s.skip(m));
    } else {
        assert(s.skip(0) =~= s);
    }
}

proof fn lemma_all_recognized_skip(s: Seq<char>, m: int)
    requires
        0 <= m <= s.len(),
        all_recognized(s),
    ensures
        all_recognized(s.skip(m)),
{
    assert forall|i: int| 0 <= i < s.skip(m).len() implies is_recognized(
        #[trigger] s.skip(m)[i],
    ) by {
        assert(s.skip(m)[i] == s[i + m]);
    }
}

/// A text whose characters the scanner all recognizes scans without
/// error, whatever column it starts at.
pub proof fn lemma_all_recognized_ok(s: Seq<char>, col: nat)
    requires
        all_recognized(s),
    ensures
        spec_lex(s, col) is Ok,
    decreases s.len(),
{
    if s.len() > 0 {
        let c = s[0];
        if c == '*' && s.len() >= 2 && s[1] == '*' {
            lemma_all_recognized_skip(s, 2);
            lemma_all_recognized_ok(s.skip(2), col + 2);
        } else if is_alpha(c) {
            let m = alpha_run_len(s);
            lemma_alpha_run_len(s);
            lemma_all_recognized_skip(s, m as int);
            lemma_all_recognized_ok(s.skip(m as int), col + m);
        } else {
            lemma_all_recognized_skip(s, 1);
            lemma_all_recognized_ok(s.skip(1), col + 1);
        }
    }
}

/// Fail-fast: when some character of `s` is unrecognized, the scan stops
/// at the first such character and returns it with its exact location —
/// no token sequence at all, however many tokens preceded it.
pub proof fn lemma_scan_stops_at_first_bad(s: Seq<char>, col: nat)
    requires
        !all_recognized(s),
    ensures
        spec_lex(s, col) == Err::<Seq<TokenView>, LexErrorView>(
            LexErrorView::UnexpectedToken(
                s[first_unrecognized(s)],
                spec_loc((col + first_unrecognized(s)) as nat),
                spec_loc((col + first_unrecognized(s)) as nat),
            ),
        ),
    decreases s.len(),
{
    lemma_first_unrecognized(s);
    let k = first_unrecognized(s);
    let c = s[0];
    if k > 0 {
        if c == '*' && s.len() >= 2 && s[1] == '*' {
            assert(k >= 2);
            assert(!all_recognized(s.skip(2))) by {
                assert(s.skip(2)[k - 2] == s[k]);
            }
            lemma_first_unrecognized_skip(s, 2);
            lemma_scan_stops_at_first_bad(s.skip(2), col + 2);
        } else if is_alpha(c) {
            let m = alpha_run_len(s);
            lemma_alpha_run_len(s);
            assert(m <= k) by {
                if k < m {
                    assert(is_alpha(s[k]));
                }
            }
            assert(!all_recognized(s.skip(m as int))) by {
                assert(s.skip(m as int)[k - m] == s[k]);
            }
            lemma_first_unrecognized_skip(s, m as int);
            lemma_scan_stops_at_first_bad(s.skip(m as int), col + m);
        } else {
            assert(!all_recognized(s.skip(1))) by {
                assert(s.skip(1)[k - 1] == s[k]);
            }
            lemma_first_unrecognized_skip(s, 1);
            lemma_scan_stops_at_first_bad(s.skip(1), col + 1);
        }
    }
}

/// The scan succeeds exactly when every character of the text is one the
/// scanner recognizes.
pub proof fn lemma_lex_ok_iff_all_recognized(s: Seq<char>)
    ensures
        spec_lex(s, 1) is Ok <==> all_recognized(s),
{
    if all_recognized(s) {
        lemma_all_recognized_ok(s, 1);
    } else {
        lemma_scan_stops_at_first_bad(s, 1);
    }
}

/// Concatenating two texts scans without error exactly when each text
/// scans without error on its own: an unrecognized character dooms the
/// scan wherever it stands, and valid tokens around it salvage nothing.
pub proof fn lemma_concat_ok_iff(a: Seq<char>, b: Seq<char>)
    ensures
        spec_lex(a + b, 1) is Ok <==> (spec_lex(a, 1) is Ok && spec_lex(b, 1) is Ok),
{
    lemma_lex_ok_iff_all_recognized(a);
    lemma_lex_ok_iff_all_recognized(b);
    lemma_lex_ok_iff_all_recognized(a + b);
    if all_recognized(a) && all_recognized(b) {
        assert forall|i: int| 0 <= i < (a + b).len() implies is_recognized(
            #[trigger] (a + b)[i],
        ) by {
            if i < a.len() {
                assert((a + b)[i] == a[i]);
            } else {
                assert((a + b)[i] == b[i - a.len()]);
            }
        }
    }
    if all_recognized(a + b) {
        assert forall|i: int| 0 <= i < a.len() implies is_recognized(#[trigger] a[i]) by {
            assert(a[i] == (a + b)[i]);
        }
        assert forall|i: int| 0 <= i < b.len() implies is_recognized(#[trigger] b[i]) by {
            assert(b[i] == (a + b)[i + a.len()]);
        }
    }
}

proof fn lemma_positions_step(kind: TokenTypeView, rest: Seq<TokenView>, col: nat, span: nat)
    requires
        span >= 1,
        forall|j: int| 0 <= j < rest.len() ==> (#[trigger] rest[j]).start.line == 1
            && rest[j].end.line == 1,
        forall|j: int| 0 <= j < rest.len() ==> col + span <= (#[trigger] rest[j]).start.column
            <= rest[j].end.column,
        forall|j1: int, j2: int|
            0 <= j1 < j2 < rest.len() ==> (#[trigger] rest[j1]).end.column
                < (#[trigger] rest[j2]).start.column,
    ensures
        ({
            let ts = seq![spec_token(kind, col, span)] + rest;
            &&& forall|j: int|
                0 <= j < ts.len() ==> (#[trigger] ts[j]).start.line == 1 && ts[j].end.line == 1
            &&& forall|j: int|
                0 <= j < ts.len() ==> col <= (#[trigger] ts[j]).start.column <= ts[j].end.column
            &&& forall|j1: int, j2: int|
                0 <= j1 < j2 < ts.len() ==> (#[trigger] ts[j1]).end.column
                    < (#[trigger] ts[j2]).start.column
        }),
{
    let ts = seq![spec_token(kind, col, span)] + rest;
    assert forall|j: int| 0 <= j < ts.len() implies (#[trigger] ts[j]).start.line == 1
        && ts[j].end.line == 1 by {
        if j > 0 {
            assert(ts[j] == rest[j - 1]);
        }
    }
    assert forall|j: int| 0 <= j < ts.len() implies col <= (#[trigger] ts[j]).start.column
        <= ts[j].end.column by {
        if j > 0 {
            assert(ts[j] == rest[j - 1]);
        }
    }
    assert forall|j1: int, j2: int| 0 <= j1 < j2 < ts.len() implies (#[trigger] ts[j1]).end.column
        < (#[trigger] ts[j2]).start.column by {
        assert(ts[j2] == rest[j2 - 1]);
        if j1 > 0 {
            assert(ts[j1] == rest[j1 - 1]);
        }
    }
}

/// Every token of a successful scan lies on line 1, starts no earlier
/// than the scan's starting column, ends no earlier than it starts, and
/// the tokens stand in strictly increasing position order, matching their
/// appearance in the text.
pub proof fn lemma_token_positions(s: Seq<char>, col: nat)
    requires
        spec_lex(s, col) is Ok,
    ensures
        ({
            let ts = spec_lex(s, col)->Ok_0;
            &&& forall|j: int|
                0 <= j < ts.len() ==> (#[trigger] ts[j]).start.line == 1 && ts[j].end.line == 1
            &&& forall|j: int|
                0 <= j < ts.len() ==> col <= (#[trigger] ts[j]).start.column <= ts[j].end.column
            &&& forall|j1: int, j2: int|
                0 <= j1 < j2 < ts.len() ==> (#[trigger] ts[j1]).end.column
                    < (#[trigger] ts[j2]).start.column
        }),
    decreases s.len(),
{
    if s.len() > 0 {
        let c = s[0];
        if c == ' ' {
            lemma_token_positions(s.skip(1), col + 1);
        } else if c == '*' && s.len() >= 2 && s[1] == '*' {
            lemma_token_positions(s.skip(2), col + 2);
            lemma_positions_step(
                TokenTypeView::StarStar,
                spec_lex(s.skip(2), col + 2)->Ok_0,
                col,
                2,
            );
        } else if is_alpha(c) {
            let m = alpha_run_len(s);
            lemma_alpha_run_len(s);
            lemma_token_positions(s.skip(m as int), col + m);
            lemma_positions_step(
                spec_keyword(s.take(m as int)),
                spec_lex(s.skip(m as int), col + m)->Ok_0,
                col,
                m,
            );
        } else {
            let kind = if c == '+' {
                TokenTypeView::Plus
            } else if c == '-' {
                TokenTypeView::Minus
            } else if c == '*' {
                TokenTypeView::Star
            } else {
                TokenTypeView::Slash
            };
            lemma_token_positions(s.skip(1), col + 1);
            lemma_positions_step(kind, spec_lex(s.skip(1), col + 1)->Ok_0, col, 1);
        }
    }
}

/// The same token, moved right by `d` columns on its line.
pub open spec fn shift_token(t: TokenView, d: nat) -> TokenView {
    TokenView {
        start: LocationView { line: t.start.line, column: (t.start.column + d) as nat },
        end: LocationView { line: t.end.line, column: (t.end.column + d) as nat },
        token_type: t.token_type,
    }
}

/// The same tokens, each moved right by `d` columns.
pub open spec fn shift_tokens(ts: Seq<TokenView>, d: nat) -> Seq<TokenView> {
    ts.map_values(|t: TokenView| shift_token(t, d))
}

/// Starting the scan `d` columns further right shifts every token, or the
/// error's location, by exactly `d` columns: the scan itself is oblivious
/// to where its text begins.
pub proof fn lemma_lex_shift(s: Seq<char>, col: nat, d: nat)
    ensures
        spec_lex(s, col + d) == (match spec_lex(s, col) {
            Ok(ts) => Ok::<Seq<TokenView>, LexErrorView>(shift_tokens(ts, d)),
            Err(LexErrorView::UnexpectedToken(c, st, _)) => Err::<
                Seq<TokenView>,
                LexErrorView,
            >(
                LexErrorView::UnexpectedToken(
                    c,
                    spec_loc((st.column + d) as nat),
                    spec_loc((st.column + d) as nat),
                ),
            ),
        }),
    decreases s.len(),
{
    if s.len() == 0 {
        assert(shift_tokens(Seq::empty(), d) =~= Seq::<TokenView>::empty());
    } else {
        let c = s[0];
        if c == '*' && s.len() >= 2 && s[1] == '*' {
            lemma_lex_shift(s.skip(2), col + 2, d);
            lemma_shift_cons(spec_token(TokenTypeView::StarStar, col, 2), spec_lex(s.skip(2), col + 2), d);
        } else if is_alpha(c) {
            let m = alpha_run_len(s);
            lemma_alpha_run_len(s);
            lemma_lex_shift(s.skip(m as int), col + m, d);
            lemma_shift_cons(spec_token(spec_keyword(s.take(m as int)), col, m), spec_lex(s.skip(m as int), col + m), d);
        } else if c == ' ' {
            lemma_lex_shift(s.skip(1), col + 1, d);
        } else if c == '+' || c == '-' || c == '*' || c == '/' {
            let kind = operator_kind(c);
            lemma_lex_shift(s.skip(1), col + 1, d);
            lemma_shift_cons(spec_token(kind, col, 1), spec_lex(s.skip(1), col + 1), d);
        }
    }
}

proof fn lemma_shift_cons(t: TokenView, rest: Result<Seq<TokenView>, LexErrorView>, d: nat)
    ensures
        (match spec_cons(t, rest) {
            Ok(ts) => Ok::<Seq<TokenView>, LexErrorView>(shift_tokens(ts, d)),
            Err(e) => Err::<Seq<TokenView>, LexErrorView>(e),
        }) == spec_cons(
            shift_token(t, d),
            match rest {
                Ok(ts) => Ok::<Seq<TokenView>, LexErrorView>(shift_tokens(ts, d)),
                Err(e) => Err::<Seq<TokenView>, LexErrorView>(e),
            },
        ),
{
    match rest {
        Ok(ts) => {
            assert(shift_tokens(seq![t] + ts, d) =~= seq![shift_token(t, d)] + shift_tokens(
                ts,
                d,
            ));
        },
        Err(e) => {},
    }
}

proof fn lemma_cons_append(
    t: TokenView,
    done: Seq<TokenView>,
    rest: Result<Seq<TokenView>, LexErrorView>,
)
    ensures
        spec_cons(t, spec_append(done, rest)) == spec_append(seq![t] + done, rest),
{
    match rest {
        Ok(ts) => {
            assert(seq![t] + (done + ts) =~= (seq![t] + done) + ts);
        },
        Err(e) => {},
    }
}

/// When the first text scans without error and ends with a space (or is
/// empty), no token can straddle the boundary: scanning the
/// concatenation first yields exactly the first text's tokens, then
/// whatever scanning the second text from the column after the boundary
/// yields.
pub proof fn lemma_lex_decompose(a: Seq<char>, b: Seq<char>, col: nat)
    requires
        spec_lex(a, col) is Ok,
        a.len() == 0 || a.last() == ' ',
    ensures
        spec_lex(a + b, col) == spec_append(spec_lex(a, col)->Ok_0, spec_lex(b, col + a.len())),
    decreases a.len(),
{
    if a.len() == 0 {
        assert(a + b =~= b);
        match spec_lex(b, col) {
            Ok(ts) => {
                assert(Seq::<TokenView>::empty() + ts =~= ts);
            },
            Err(e) => {},
        }
    } else {
        let c = a[0];
        let ab = a + b;
        assert(ab[0] == c);
        if c == ' ' {
            assert(ab.skip(1) =~= a.skip(1) + b);
            assert(a.skip(1).len() == 0 || a.skip(1).last() == a.last());
            lemma_lex_decompose(a.skip(1), b, col + 1);
        } else if c == '+' || c == '-' || c == '/' {
            let t = spec_token(operator_kind(c), col, 1);
            assert(ab.skip(1) =~= a.skip(1) + b);
            assert(a.skip(1).last() == a.last());
            lemma_lex_decompose(a.skip(1), b, col + 1);
            lemma_cons_append(t, spec_lex(a.skip(1), col + 1)->Ok_0, spec_lex(b, col + a.len()));
        } else if c == '*' {
            assert(a.len() >= 2) by {
                if a.len() == 1 {
                    assert(a.last() == c);
                }
            }
            assert(ab[1] == a[1]);
            if a[1] == '*' {
                assert(a.len() >= 3) by {
                    if a.len() == 2 {
                        assert(a.last() == a[1]);
                    }
                }
                let t = spec_token(TokenTypeView::StarStar, col, 2);
                assert(ab.skip(2) =~= a.skip(2) + b);
                assert(a.skip(2).last() == a.last());
                lemma_lex_decompose(a.skip(2), b, col + 2);
                lemma_cons_append(
                    t,
                    spec_lex(a.skip(2), col + 2)->Ok_0,
                    spec_lex(b, col + a.len()),
                );
            } else {
                let t = spec_token(TokenTypeView::Star, col, 1);
                assert(ab.skip(1) =~= a.skip(1) + b);
                assert(a.skip(1).last() == a.last());
                lemma_lex_decompose(a.skip(1), b, col + 1);
                lemma_cons_append(
                    t,
                    spec_lex(a.skip(1), col + 1)->Ok_0,
                    spec_lex(b, col + a.len()),
                );
            }
        } else {
            assert(is_alpha(c));
            let m = alpha_run_len(a);
            lemma_alpha_run_len(a);
            assert(m < a.len()) by {
                if m == a.len() {
                    assert(is_alpha(a[a.len() - 1]));
                }
            }
            assert forall|i: int| 0 <= i < m implies is_alpha(#[trigger] ab[i]) by {
                assert(ab[i] == a[i]);
            }
            assert(ab[m as int] == a[m as int]);
            lemma_alpha_run_len_is(ab, m as int);
            assert(ab.take(m as int) =~= a.take(m as int));
            let t = spec_token(spec_keyword(a.take(m as int)), col, m);
            assert(ab.skip(m as int) =~= a.skip(m as int) + b);
            assert(a.skip(m as int).last() == a.last());
            lemma_lex_decompose(a.skip(m as int), b, col + m);
            lemma_cons_append(
                t,
                spec_lex(a.skip(m as int), col + m)->Ok_0,
                spec_lex(b, col + a.len()),
            );
        }
    }
}

/// Round trip across a boundary: when two texts each scan without error
/// and the first is empty or ends with a space, scanning their
/// concatenation yields exactly the first text's token stream followed by
/// the second text's, the latter shifted right by the first text's
/// length. (Without a boundary like the space, adjacent texts can merge:
/// two runs of letters fuse into one name, and `*` meeting `*` fuses into
/// a double star.)
pub proof fn lemma_concat_round_trip(a: Seq<char>, b: Seq<char>)
    requires
        spec_lex(a, 1) is Ok,
        spec_lex(b, 1) is Ok,
        a.len() == 0 || a.last() == ' ',
    ensures
        spec_lex(a + b, 1) == Ok::<Seq<TokenView>, LexErrorView>(
            spec_lex(a, 1)->Ok_0 + shift_tokens(spec_lex(b, 1)->Ok_0, a.len()),
        ),
{
    lemma_lex_decompose(a, b, 1);
    lemma_lex_shift(b, 1, a.len());
}

/// The token kind of a single operator character.
pub open spec fn operator_kind(c: char) -> TokenTypeView {
    if c == '+' {
        TokenTypeView::Plus
    } else if c == '-' {
        TokenTypeView::Minus
    } else if c == '*' {
        TokenTypeView::Star
    } else {
        TokenTypeView::Slash
    }
}

/// A text of one operator character scans to exactly one token of the
/// matching kind, spanning exactly that character.
pub proof fn lemma_single_operator(c: char)
    requires
        c == '+' || c == '-' || c == '*' || c == '/',
    ensures
        spec_lex(seq![c], 1) == Ok::<Seq<TokenView>, LexErrorView>(
            seq![spec_token(operator_kind(c), 1, 1)],
        ),
{
    let s = seq![c];
    assert(s.skip(1) =~= Seq::<char>::empty());
    assert(spec_lex(s.skip(1), 2) == Ok::<Seq<TokenView>, LexErrorView>(Seq::empty()));
    assert(seq![spec_token(operator_kind(c), 1, 1)] + Seq::<TokenView>::empty() =~= seq![
        spec_token(operator_kind(c), 1, 1),
    ]);
}

/// A nonempty run of letters other than the exact spellings `if` and
/// `else` scans to a single name token carrying that exact text and
/// spanning the whole run.
pub proof fn lemma_letters_lex_to_name(s: Seq<char>, col: nat)
    requires
        s.len() > 0,
        forall|i: int| 0 <= i < s.len() ==> is_alpha(#[trigger] s[i]),
        s != seq!['i', 'f'],
        s != seq!['e', 'l', 's', 'e'],
    ensures
        spec_lex(s, col) == Ok::<Seq<TokenView>, LexErrorView>(
            seq![spec_token(TokenTypeView::Name(s), col, s.len())],
        ),
{
    lemma_alpha_run_len_is(s, s.len() as int);
    assert(s.take(s.len() as int) =~= s);
    assert(s.skip(s.len() as int) =~= Seq::<char>::empty());
    assert(spec_lex(s.skip(s.len() as int), col + s.len()) == Ok::<Seq<TokenView>, LexErrorView>(
        Seq::empty(),
    ));
    assert(spec_keyword(s) == TokenTypeView::Name(s));
    assert(seq![spec_token(TokenTypeView::Name(s), col, s.len())] + Seq::<TokenView>::empty()
        =~= seq![spec_token(TokenTypeView::Name(s), col, s.len())]);
}

} // verus!
