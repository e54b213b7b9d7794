//! Maven versions: tokenizing, the Maven ordering, and version ranges.
//!
//! Maven versions follow an ordering that is *not* semantic versioning,
//! e.g. `1.0-alpha < 1.0-beta < 1.0-rc1 < 1.0 < 1.0.1 < 1.1`.
//! A version is split into tokens at `.`, `-`, `_` and at every change
//! between digits and other characters; tokens are numbers, qualifiers
//! (`alpha`, `beta`, `milestone`, `rc`, `snapshot`, release, `sp`) or
//! other text. Two versions are compared token by token, the shorter one
//! padded with the number 0. Qualifiers order as `alpha < beta < milestone
//! < rc < snapshot < release < sp`, the release qualifier counting as the
//! padding (`1-final` equals `1`, `1 < 1-sp`).

use vstd::prelude::*;
use crate::text::{
    all_digits, all_digits_exec, digits_value, is_digit, is_word, lex, lex_exec, lowercase, text_lower,
    parse_digits, string_of, chars_of, lemma_lex_antisym,
    lemma_lex_range, lemma_lex_refl, lemma_lex_trans, lemma_lex_zero,
};

verus! {

/// Special qualifier ordering: alpha < beta < milestone < rc < snapshot < release < sp.
#[derive(Debug, Clone, Copy, PartialEq, Eq, Hash)]
pub enum Qualifier {
    Alpha,
    Beta,
    Milestone,
    Rc,
    Snapshot,
    /// The release qualifier (`final`, `ga`, `release`).
    Release,
    Sp,
}

/// Position of a qualifier in the qualifier ordering.
pub open spec fn qualifier_rank(q: Qualifier) -> int {
    match q {
        Qualifier::Alpha => 0,
        Qualifier::Beta => 1,
        Qualifier::Milestone => 2,
        Qualifier::Rc => 3,
        Qualifier::Snapshot => 4,
        Qualifier::Release => 5,
        Qualifier::Sp => 6,
    }
}

/// One comparable piece of a version.
#[derive(Debug)]
pub enum VersionToken {
    Number(u64),
    String(String),
    Qualifier(Qualifier),
}

/// Mathematical view of a version token.
pub enum TokenView {
    Number(u64),
    Text(Seq<char>),
    Qualifier(Qualifier),
}

impl View for VersionToken {
    type V = TokenView;

    open spec fn view(&self) -> TokenView {
        match self {
            VersionToken::Number(n) => TokenView::Number(*n),
            VersionToken::String(s) => TokenView::Text(s@),
            VersionToken::Qualifier(q) => TokenView::Qualifier(*q),
        }
    }
}

/// Parsed and comparable Maven version. Its view is the raw text.
#[derive(Debug, PartialEq, Eq, Hash)]
pub struct Version {
    /// The version text as written.
    pub raw: String,
}

impl View for Version {
    type V = Seq<char>;

    open spec fn view(&self) -> Seq<char> {
        self.raw@
    }
}

impl Clone for Version {
    fn clone(&self) -> (r: Self)
        ensures
            r == *self,
    {
        Version { raw: self.raw.clone() }
    }
}

// ---------------------------------------------------------------------
// Tokenizing
// ---------------------------------------------------------------------

/// Separators between version tokens.
pub open spec fn is_sep(c: char) -> bool {
    c == '.' || c == '-' || c == '_'
}

/// Maximal runs of non-separator characters that are all digits or all
/// non-digits; `cur` is the run collected so far.
pub open spec fn runs_from(s: Seq<char>, cur: Seq<char>) -> Seq<Seq<char>>
    decreases s.len(),
{
    if s.len() == 0 {
        if cur.len() == 0 {
            Seq::empty()
        } else {
            seq![cur]
        }
    } else if is_sep(s[0]) {
        (if cur.len() == 0 {
            Seq::empty()
        } else {
            seq![cur]
        }) + runs_from(s.drop_first(), Seq::empty())
    } else if cur.len() > 0 && is_digit(cur.last()) != is_digit(s[0]) {
        seq![cur] + runs_from(s.drop_first(), seq![s[0]])
    } else {
        runs_from(s.drop_first(), cur.push(s[0]))
    }
}

/// The runs of a version text.
pub open spec fn runs(s: Seq<char>) -> Seq<Seq<char>> {
    runs_from(s, Seq::empty())
}

/// The qualifier named by a lower-cased word, if any.
pub open spec fn qualifier_word(l: Seq<char>) -> Option<Qualifier> {
    if l == "alpha"@ || l == "a"@ {
        Some(Qualifier::Alpha)
    } else if l == "beta"@ || l == "b"@ {
        Some(Qualifier::Beta)
    } else if l == "milestone"@ || l == "m"@ {
        Some(Qualifier::Milestone)
    } else if l == "rc"@ || l == "cr"@ {
        Some(Qualifier::Rc)
    } else if l == "snapshot"@ || l == "snap"@ {
        Some(Qualifier::Snapshot)
    } else if l == "sp"@ || l == "servicepack"@ {
        Some(Qualifier::Sp)
    } else if l == "final"@ || l == "ga"@ || l == "release"@ {
        Some(Qualifier::Release)
    } else {
        None
    }
}

/// The token a run stands for: a number when it is digits that fit in `u64`,
/// else a qualifier when its lower-cased text names one, else that text.
pub open spec fn classify(run: Seq<char>) -> TokenView {
    if run.len() > 0 && all_digits(run) && digits_value(run) <= u64::MAX {
        TokenView::Number(digits_value(run) as u64)
    } else {
        match qualifier_word(text_lower(run)) {
            Some(q) => TokenView::Qualifier(q),
            None => TokenView::Text(text_lower(run)),
        }
    }
}

/// The tokens of a version text; a text without tokens stands for `[0]`.
pub open spec fn version_tokens(raw: Seq<char>) -> Seq<TokenView> {
    let t = runs(raw).map_values(|r: Seq<char>| classify(r));
    if t.len() == 0 {
        seq![TokenView::Number(0)]
    } else {
        t
    }
}

// ---------------------------------------------------------------------
// Ordering
// ---------------------------------------------------------------------

/// Tokens fall into classes ordered as: the qualifiers before a release
/// (`alpha` to `snapshot`) < the release qualifier and the number 0 (which
/// pads the shorter version, so `1-final` equals `1`) < `sp` < text <
/// positive numbers.
pub open spec fn token_class(t: TokenView) -> int {
    match t {
        TokenView::Qualifier(q) => if q == Qualifier::Release {
            1
        } else if q == Qualifier::Sp {
            2
        } else {
            0
        },
        TokenView::Number(n) => if n == 0 {
            1
        } else {
            4
        },
        TokenView::Text(_) => 3,
    }
}

/// Sign of an integer.
pub open spec fn sign(x: int) -> int {
    if x < 0 {
        -1
    } else if x > 0 {
        1
    } else {
        0
    }
}

/// Order of two tokens: -1, 0 or 1. Across classes the class decides;
/// within a class numbers compare by value, qualifiers by their ordering,
/// text lexicographically; the release qualifier equals the number 0.
pub open spec fn token_order(a: TokenView, b: TokenView) -> int {
    if token_class(a) != token_class(b) {
        sign(token_class(a) - token_class(b))
    } else {
        match (a, b) {
            (TokenView::Number(x), TokenView::Number(y)) => sign(x - y),
            (TokenView::Text(x), TokenView::Text(y)) => lex(x, y),
            (TokenView::Qualifier(x), TokenView::Qualifier(y)) => sign(
                qualifier_rank(x) - qualifier_rank(y),
            ),
            _ => 0,
        }
    }
}

/// Token `i` of `t`, or the number 0 past its end.
pub open spec fn token_at(t: Seq<TokenView>, i: int) -> TokenView {
    if 0 <= i < t.len() {
        t[i]
    } else {
        TokenView::Number(0)
    }
}

/// Larger of two integers.
pub open spec fn max_int(a: int, b: int) -> int {
    if a < b {
        b
    } else {
        a
    }
}

/// Order of two token sequences from position `i`, the shorter padded with 0.
pub open spec fn tokens_order_from(a: Seq<TokenView>, b: Seq<TokenView>, i: int) -> int
    decreases max_int(a.len() as int, b.len() as int) - i,
{
    if i >= a.len() && i >= b.len() {
        0
    } else {
        let o = token_order(token_at(a, i), token_at(b, i));
        if o != 0 {
            o
        } else {
            tokens_order_from(a, b, i + 1)
        }
    }
}

/// The Maven order of two version texts: -1 (less), 0 (equal) or 1 (greater).
pub open spec fn version_order(a: Seq<char>, b: Seq<char>) -> int {
    tokens_order_from(version_tokens(a), version_tokens(b), 0)
}

// ---------------------------------------------------------------------
// Laws of the ordering
// ---------------------------------------------------------------------

proof fn lemma_token_order_props(a: TokenView, b: TokenView)
    ensures
        -1 <= token_order(a, b) <= 1,
        token_order(a, b) == -token_order(b, a),
{
    match (a, b) {
        (TokenView::Text(x), TokenView::Text(y)) => {
            lemma_lex_antisym(x, y);
            lemma_lex_range(x, y);
            if lex(x, y) == 0 {
                lemma_lex_zero(x, y);
            }
        },
        _ => {},
    }
}

proof fn lemma_token_order_trans(a: TokenView, b: TokenView, c: TokenView)
    requires
        token_order(a, b) <= 0,
        token_order(b, c) <= 0,
    ensures
        token_order(a, c) <= 0,
        token_order(a, c) == 0 ==> token_order(a, b) == 0 && token_order(b, c) == 0,
{
    lemma_token_order_props(a, b);
    lemma_token_order_props(b, c);
    lemma_token_order_props(a, c);
    match (a, b, c) {
        (TokenView::Text(x), TokenView::Text(y), TokenView::Text(z)) => {
            lemma_lex_trans(x, y, z);
            lemma_lex_antisym(x, y);
            lemma_lex_antisym(y, z);
            if lex(x, z) == 0 {
                lemma_lex_zero(x, z);
            }
        },
        _ => {},
    }
}

proof fn lemma_token_order_refl(a: TokenView)
    ensures
        token_order(a, a) == 0,
{
    if let TokenView::Text(x) = a {
        lemma_lex_refl(x);
    }
}

/// Order over positions `i..n` of the padded sequences.
spec fn padded_order(a: Seq<TokenView>, b: Seq<TokenView>, i: int, n: int) -> int
    decreases n - i,
{
    if i >= n {
        0
    } else {
        let o = token_order(token_at(a, i), token_at(b, i));
        if o != 0 {
            o
        } else {
            padded_order(a, b, i + 1, n)
        }
    }
}

proof fn lemma_padded_tail_zero(a: Seq<TokenView>, b: Seq<TokenView>, i: int, n: int)
    requires
        i >= a.len(),
        i >= b.len(),
    ensures
        padded_order(a, b, i, n) == 0,
    decreases n - i,
{
    if i < n {
        lemma_padded_tail_zero(a, b, i + 1, n);
    }
}

proof fn lemma_padded_eq(a: Seq<TokenView>, b: Seq<TokenView>, i: int, n: int)
    requires
        0 <= i,
        n >= a.len(),
        n >= b.len(),
    ensures
        tokens_order_from(a, b, i) == padded_order(a, b, i, n),
    decreases max_int(a.len() as int, b.len() as int) - i,
{
    if i >= a.len() && i >= b.len() {
        lemma_padded_tail_zero(a, b, i, n);
    } else {
        lemma_padded_eq(a, b, i + 1, n);
    }
}

proof fn lemma_padded_props(a: Seq<TokenView>, b: Seq<TokenView>, i: int, n: int)
    ensures
        -1 <= padded_order(a, b, i, n) <= 1,
        padded_order(a, b, i, n) == -padded_order(b, a, i, n),
    decreases n - i,
{
    if i < n {
        lemma_token_order_props(token_at(a, i), token_at(b, i));
        lemma_padded_props(a, b, i + 1, n);
    }
}

proof fn lemma_padded_refl(a: Seq<TokenView>, i: int, n: int)
    ensures
        padded_order(a, a, i, n) == 0,
    decreases n - i,
{
    if i < n {
        lemma_token_order_refl(token_at(a, i));
        lemma_padded_refl(a, i + 1, n);
    }
}

proof fn lemma_padded_trans(a: Seq<TokenView>, b: Seq<TokenView>, c: Seq<TokenView>, i: int, n: int)
    requires
        padded_order(a, b, i, n) <= 0,
        padded_order(b, c, i, n) <= 0,
    ensures
        padded_order(a, c, i, n) <= 0,
        padded_order(a, c, i, n) == 0 ==> padded_order(a, b, i, n) == 0 && padded_order(
            b,
            c,
            i,
            n,
        ) == 0,
    decreases n - i,
{
    if i < n {
        let x = token_at(a, i);
        let y = token_at(b, i);
        let z = token_at(c, i);
        lemma_token_order_props(x, y);
        lemma_token_order_props(y, z);
        lemma_token_order_props(x, z);
        lemma_token_order_trans(x, y, z);
        if token_order(x, y) == 0 && token_order(y, z) == 0 {
            lemma_padded_trans(a, b, c, i + 1, n);
        }
    }
}

/// Every version is equal to itself in the Maven order.
pub proof fn lemma_version_order_reflexive(a: Seq<char>)
    ensures
        version_order(a, a) == 0,
{
    let t = version_tokens(a);
    lemma_padded_eq(t, t, 0, t.len() as int);
    lemma_padded_refl(t, 0, t.len() as int);
}

/// Comparing `b` with `a` gives the opposite of comparing `a` with `b`;
/// the result is always -1, 0 or 1.
pub proof fn lemma_version_order_antisymmetric(a: Seq<char>, b: Seq<char>)
    ensures
        version_order(a, b) == -version_order(b, a),
        -1 <= version_order(a, b) <= 1,
{
    let ta = version_tokens(a);
    let tb = version_tokens(b);
    let n = max_int(ta.len() as int, tb.len() as int);
    lemma_padded_eq(ta, tb, 0, n);
    lemma_padded_eq(tb, ta, 0, n);
    lemma_padded_props(ta, tb, 0, n);
}

/// The Maven order is transitive: `a <= b` and `b <= c` give `a <= c`, and
/// `a == c` then forces `a == b == c` (so `<` is transitive too).
pub proof fn lemma_version_order_transitive(a: Seq<char>, b: Seq<char>, c: Seq<char>)
    requires
        version_order(a, b) <= 0,
        version_order(b, c) <= 0,
    ensures
        version_order(a, c) <= 0,
        version_order(a, c) == 0 ==> version_order(a, b) == 0 && version_order(b, c) == 0,
{
    let ta = version_tokens(a);
    let tb = version_tokens(b);
    let tc = version_tokens(c);
    let n = max_int(max_int(ta.len() as int, tb.len() as int), tc.len() as int);
    lemma_padded_eq(ta, tb, 0, n);
    lemma_padded_eq(tb, tc, 0, n);
    lemma_padded_eq(ta, tc, 0, n);
    lemma_padded_trans(ta, tb, tc, 0, n);
}

proof fn lemma_runs_of_digits(s: Seq<char>, cur: Seq<char>)
    requires
        all_digits(s),
        all_digits(cur),
        (cur + s).len() > 0,
    ensures
        runs_from(s, cur) == seq![cur + s],
    decreases s.len(),
{
    if s.len() == 0 {
        assert(cur + s =~= cur);
    } else {
        assert(is_digit(s[0]));
        assert(!is_sep(s[0]));
        if cur.len() > 0 {
            assert(is_digit(cur.last()));
        }
        let rest = s.drop_first();
        assert(all_digits(rest)) by {
            assert forall|i: int| 0 <= i < rest.len() implies is_digit(#[trigger] rest[i]) by {
                assert(rest[i] == s[i + 1]);
            }
        }
        let c2 = cur.push(s[0]);
        assert(all_digits(c2)) by {
            assert forall|i: int| 0 <= i < c2.len() implies is_digit(#[trigger] c2[i]) by {
                if i < cur.len() {
                    assert(c2[i] == cur[i]);
                }
            }
        }
        assert(c2 + rest =~= cur + s);
        lemma_runs_of_digits(rest, c2);
    }
}

/// Versions that are plain numbers compare by numeric value: the decimal
/// forms of `x` and `y` compare as `x` and `y` do (so `9 < 10`).
pub proof fn lemma_numbers_compare_by_value(x: u64, y: u64)
    ensures
        version_order(crate::text::decimal(x as nat), crate::text::decimal(y as nat)) == sign(
            x - y,
        ),
{
    let dx = crate::text::decimal(x as nat);
    let dy = crate::text::decimal(y as nat);
    crate::text::lemma_decimal_digits(x as nat);
    crate::text::lemma_decimal_digits(y as nat);
    crate::text::lemma_decimal_value(x as nat);
    crate::text::lemma_decimal_value(y as nat);
    assert(all_digits(Seq::<char>::empty()));
    lemma_runs_of_digits(dx, Seq::empty());
    lemma_runs_of_digits(dy, Seq::empty());
    assert(Seq::<char>::empty() + dx =~= dx);
    assert(Seq::<char>::empty() + dy =~= dy);
    assert(runs(dx) == seq![dx]);
    assert(runs(dy) == seq![dy]);
    assert(classify(dx) == TokenView::Number(x));
    assert(classify(dy) == TokenView::Number(y));
    let tx = version_tokens(dx);
    let ty = version_tokens(dy);
    assert(tx =~= seq![TokenView::Number(x)]);
    assert(ty =~= seq![TokenView::Number(y)]);
    assert(token_at(tx, 0) == TokenView::Number(x));
    assert(token_at(ty, 0) == TokenView::Number(y));
    assert(tokens_order_from(tx, ty, 1) == 0);
}

// ---------------------------------------------------------------------
// Executable versions
// ---------------------------------------------------------------------

/// The qualifier named by a lower-cased word, if any.
fn qualifier_of(l: &[char]) -> (r: Option<Qualifier>)
    ensures
        r == qualifier_word(l@),
{
    if is_word(l, "alpha") || is_word(l, "a") {
        Some(Qualifier::Alpha)
    } else if is_word(l, "beta") || is_word(l, "b") {
        Some(Qualifier::Beta)
    } else if is_word(l, "milestone") || is_word(l, "m") {
        Some(Qualifier::Milestone)
    } else if is_word(l, "rc") || is_word(l, "cr") {
        Some(Qualifier::Rc)
    } else if is_word(l, "snapshot") || is_word(l, "snap") {
        Some(Qualifier::Snapshot)
    } else if is_word(l, "sp") || is_word(l, "servicepack") {
        Some(Qualifier::Sp)
    } else if is_word(l, "final") || is_word(l, "ga") || is_word(l, "release") {
        Some(Qualifier::Release)
    } else {
        None
    }
}

/// Position of a qualifier in the qualifier ordering.
fn qualifier_position(q: Qualifier) -> (r: u8)
    ensures
        r as int == qualifier_rank(q),
{
    match q {
        Qualifier::Alpha => 0,
        Qualifier::Beta => 1,
        Qualifier::Milestone => 2,
        Qualifier::Rc => 3,
        Qualifier::Snapshot => 4,
        Qualifier::Release => 5,
        Qualifier::Sp => 6,
    }
}

impl Version {
    /// A version with the given raw text.
    pub fn new(raw: &str) -> (r: Version)
        ensures
            r@ == raw@,
    {
        Version { raw: raw.to_owned() }
    }

    /// Parses a version string; fails exactly when it is empty or white space.
    pub fn parse(raw: &str) -> (r: Result<Version, String>)
        ensures
            match r {
                Ok(v) => crate::text::trim(raw@).len() != 0 && v@ == raw@,
                Err(e) => crate::text::trim(raw@).len() == 0 && e@ == "version string cannot be empty"@,
            },
    {
        let t = crate::text::trim_str(raw);
        if t.len() == 0 {
            return Err(crate::text::owned("version string cannot be empty"));
        }
        Ok(Self::new(raw))
    }

    /// The token that one run stands for.
    pub fn classify_token(run: &[char]) -> (r: VersionToken)
        ensures
            r@ == classify(run@),
    {
        if run.len() > 0 && all_digits_exec(run) {
            if let Some(n) = parse_digits(run) {
                return VersionToken::Number(n);
            }
        }
        let s = string_of(run);
        let lower = lowercase(s.as_str());
        let l = chars_of(lower.as_str());
        match qualifier_of(l.as_slice()) {
            Some(q) => VersionToken::Qualifier(q),
            None => VersionToken::String(lower),
        }
    }

    /// The tokens of a version text.
    pub fn parse_comparable(raw: &str) -> (r: Vec<VersionToken>)
        ensures
            r@.len() == version_tokens(raw@).len(),
            forall|k: int| 0 <= k < r@.len() ==> #[trigger] r@[k]@ == version_tokens(raw@)[k],
    {
        let v = chars_of(raw);
        let mut tokens: Vec<VersionToken> = Vec::new();
        let mut cur: Vec<char> = Vec::new();
        let ghost done: Seq<Seq<char>> = Seq::empty();
        let mut i: usize = 0;
        assert(v@.skip(0) =~= v@);
        while i < v.len()
            invariant
                i <= v.len(),
                v@ == raw@,
                runs(raw@) == done + runs_from(v@.skip(i as int), cur@),
                tokens@.len() == done.len(),
                forall|k: int| 0 <= k < done.len() ==> #[trigger] tokens@[k]@ == classify(done[k]),
            decreases v.len() - i,
        {
            let c = v[i];
            let ghost rest = v@.skip(i as int);
            assert(rest.drop_first() =~= v@.skip(i + 1));
            assert(rest[0] == c);
            if c == '.' || c == '-' || c == '_' {
                if cur.len() > 0 {
                    let t = Self::classify_token(cur.as_slice());
                    proof {
                        assert(done.push(cur@) + runs_from(v@.skip(i + 1), Seq::empty()) =~= done
                            + (seq![cur@] + runs_from(v@.skip(i + 1), Seq::empty())));
                        done = done.push(cur@);
                    }
                    tokens.push(t);
                } else {
                    assert(done + runs_from(v@.skip(i + 1), Seq::empty()) =~= done + (
                    Seq::<Seq<char>>::empty() + runs_from(v@.skip(i + 1), Seq::empty())));
                }
                cur = Vec::new();
            } else if cur.len() > 0 && ('0' <= cur[cur.len() - 1] && cur[cur.len() - 1] <= '9')
                != ('0' <= c && c <= '9') {
                let t = Self::classify_token(cur.as_slice());
                proof {
                    assert(done.push(cur@) + runs_from(v@.skip(i + 1), seq![c]) =~= done + (seq![
                        cur@,
                    ] + runs_from(v@.skip(i + 1), seq![c])));
                    done = done.push(cur@);
                }
                tokens.push(t);
                cur = Vec::new();
                cur.push(c);
                assert(cur@ =~= seq![c]);
            } else {
                cur.push(c);
            }
            i = i + 1;
        }
        assert(v@.skip(i as int) =~= Seq::<char>::empty());
        if cur.len() > 0 {
            let t = Self::classify_token(cur.as_slice());
            proof {
                assert(done + seq![cur@] =~= done.push(cur@));
                done = done.push(cur@);
            }
            tokens.push(t);
        } else {
            assert(done + Seq::<Seq<char>>::empty() =~= done);
        }
        assert(runs(raw@) == done);
        if tokens.len() == 0 {
            tokens.push(VersionToken::Number(0));
        }
        tokens
    }

    /// Maven order of two versions: -1, 0 or 1.
    pub fn compare_int(&self, other: &Version) -> (r: i8)
        ensures
            r as int == version_order(self@, other@),
    {
        let a = Self::parse_comparable(self.raw.as_str());
        let b = Self::parse_comparable(other.raw.as_str());
        let ghost ta = version_tokens(self@);
        let ghost tb = version_tokens(other@);
        let n = if a.len() < b.len() {
            b.len()
        } else {
            a.len()
        };
        let zero = VersionToken::Number(0);
        let mut i: usize = 0;
        while i < n
            invariant
                ta == version_tokens(self@),
                tb == version_tokens(other@),
                a@.len() == ta.len(),
                b@.len() == tb.len(),
                forall|k: int| 0 <= k < a@.len() ==> #[trigger] a@[k]@ == ta[k],
                forall|k: int| 0 <= k < b@.len() ==> #[trigger] b@[k]@ == tb[k],
                n == max_int(ta.len() as int, tb.len() as int),
                i <= n,
                zero@ == TokenView::Number(0),
                tokens_order_from(ta, tb, 0) == tokens_order_from(ta, tb, i as int),
            decreases n - i,
        {
            let x = if i < a.len() {
                &a[i]
            } else {
                &zero
            };
            let y = if i < b.len() {
                &b[i]
            } else {
                &zero
            };
            assert(x@ == token_at(ta, i as int));
            assert(y@ == token_at(tb, i as int));
            let o = compare_tokens(x, y);
            assert(!(i >= ta.len() && i >= tb.len()));
            assert(tokens_order_from(ta, tb, i as int) == if o != 0 {
                o as int
            } else {
                tokens_order_from(ta, tb, i + 1)
            });
            if o != 0 {
                return o;
            }
            i = i + 1;
        }
        0
    }

    /// Maven order of two versions.
    pub fn compare(&self, other: &Version) -> (r: core::cmp::Ordering)
        ensures
            r == ordering_of(version_order(self@, other@)),
    {
        let o = self.compare_int(other);
        if o < 0 {
            core::cmp::Ordering::Less
        } else if o > 0 {
            core::cmp::Ordering::Greater
        } else {
            core::cmp::Ordering::Equal
        }
    }
}

impl core::str::FromStr for Version {
    type Err = String;

    /// As `Version::parse`.
    fn from_str(s: &str) -> (r: Result<Version, String>)
        ensures
            match r {
                Ok(v) => crate::text::trim(s@).len() != 0 && v@ == s@,
                Err(e) => crate::text::trim(s@).len() == 0 && e@ == "version string cannot be empty"@,
            },
    {
        Version::parse(s)
    }
}

impl PartialOrd for Version {
    /// The Maven order of two versions (never `None`).
    fn partial_cmp(&self, other: &Version) -> (r: Option<core::cmp::Ordering>) {
        Some(self.compare(other))
    }
}

impl vstd::std_specs::cmp::PartialOrdSpecImpl for Version {
    open spec fn obeys_partial_cmp_spec() -> bool {
        true
    }

    open spec fn partial_cmp_spec(&self, other: &Version) -> Option<core::cmp::Ordering> {
        Some(ordering_of(version_order(self@, other@)))
    }
}

/// Views of a list of versions.
pub open spec fn versions_view(v: Seq<Version>) -> Seq<Seq<char>> {
    v.map_values(|x: Version| x@)
}

/// The `Ordering` that an order result of -1, 0 or 1 stands for.
pub open spec fn ordering_of(o: int) -> core::cmp::Ordering {
    if o < 0 {
        core::cmp::Ordering::Less
    } else if o > 0 {
        core::cmp::Ordering::Greater
    } else {
        core::cmp::Ordering::Equal
    }
}

/// Class of a token (see `token_class`).
fn token_class_exec(t: &VersionToken) -> (r: u8)
    ensures
        r as int == token_class(t@),
{
    match t {
        VersionToken::Qualifier(q) => match q {
            Qualifier::Release => 1,
            Qualifier::Sp => 2,
            _ => 0,
        },
        VersionToken::Number(n) => if *n == 0 {
            1
        } else {
            4
        },
        VersionToken::String(_) => 3,
    }
}

/// Order of two tokens: -1, 0 or 1.
pub fn compare_tokens(x: &VersionToken, y: &VersionToken) -> (r: i8)
    ensures
        r as int == token_order(x@, y@),
{
    let cx = token_class_exec(x);
    let cy = token_class_exec(y);
    if cx < cy {
        return -1;
    }
    if cx > cy {
        return 1;
    }
    match (x, y) {
        (VersionToken::Number(na), VersionToken::Number(nb)) => if *na < *nb {
            -1
        } else if *na > *nb {
            1
        } else {
            0
        },
        (VersionToken::Qualifier(qa), VersionToken::Qualifier(qb)) => {
            let pa = qualifier_position(*qa);
            let pb = qualifier_position(*qb);
            if pa < pb {
                -1
            } else if pa > pb {
                1
            } else {
                0
            }
        },
        (VersionToken::String(sa), VersionToken::String(sb)) => {
            let ca = chars_of(sa.as_str());
            let cb = chars_of(sb.as_str());
            lex_exec(ca.as_slice(), cb.as_slice())
        },
        _ => 0,
    }
}

} // verus!
